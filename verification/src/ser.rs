//! Writing values as EDN text.
use vstd::prelude::*;
use crate::value::{EdnValue, Value, views, entry_views};
use crate::tags::inst_text;
use crate::types::{Error, ErrorView, Symbol};
use crate::chars::string_of;

verus! {

/// The decimal digit of `d`.
pub open spec fn digit_char(d: int) -> char {
    if d == 0 { '0' } else if d == 1 { '1' } else if d == 2 { '2' } else if d == 3 { '3' }
    else if d == 4 { '4' } else if d == 5 { '5' } else if d == 6 { '6' } else if d == 7 { '7' }
    else if d == 8 { '8' } else { '9' }
}

/// The upper-case hex digit of `d`.
pub open spec fn hex_char(d: int) -> char {
    if d < 10 { digit_char(d) } else if d == 10 { 'A' } else if d == 11 { 'B' } else if d == 12 { 'C' }
    else if d == 13 { 'D' } else if d == 14 { 'E' } else { 'F' }
}

/// The decimal digits of `n`.
pub open spec fn nat_text(n: nat) -> Seq<char>
    decreases n,
{
    if n < 10 {
        seq![digit_char(n as int)]
    } else {
        nat_text(n / 10) + seq![digit_char((n % 10) as int)]
    }
}

/// An integer in decimal, with a minus sign when negative.
pub open spec fn int_text(v: int) -> Seq<char> {
    if v < 0 {
        seq!['-'] + nat_text((-v) as nat)
    } else {
        nat_text(v as nat)
    }
}

/// The upper-case hex digits of `n`.
pub open spec fn hex_text(n: nat) -> Seq<char>
    decreases n,
{
    if n < 16 {
        seq![hex_char(n as int)]
    } else {
        hex_text(n / 16) + seq![hex_char((n % 16) as int)]
    }
}

/// Upper-case hex digits, padded with zeros to at least four.
pub open spec fn hex4_text(n: nat) -> Seq<char> {
    let d = hex_text(n);
    if d.len() < 4 {
        Seq::new((4 - d.len()) as nat, |i: int| '0') + d
    } else {
        d
    }
}

/// A character literal: the names `\newline`, `\return`, `\tab` and
/// `\space`; the character itself when it is ASCII other than `u`, or
/// beyond the four-digit codes; `\uXXXX` otherwise.
pub open spec fn char_text(c: char) -> Seq<char> {
    seq!['\\'] + if c == '\n' {
        "newline"@
    } else if c == '\r' {
        "return"@
    } else if c == '\t' {
        "tab"@
    } else if c == ' ' {
        "space"@
    } else if (c as u32) <= 0x7F && c != 'u' {
        seq![c]
    } else if (c as u32) <= 0xFFFF {
        seq!['u'] + hex4_text((c as u32) as nat)
    } else {
        seq![c]
    }
}

/// How a character is written inside a string literal.
pub open spec fn escape_text(c: char) -> Seq<char> {
    if c == '"' {
        seq!['\\', '"']
    } else if c == '\\' {
        seq!['\\', '\\']
    } else if c == '\n' {
        seq!['\\', 'n']
    } else if c == '\r' {
        seq!['\\', 'r']
    } else if c == '\t' {
        seq!['\\', 't']
    } else {
        seq![c]
    }
}

/// The characters of `s`, each escaped for a string literal.
pub open spec fn escaped(s: Seq<char>) -> Seq<char>
    decreases s.len(),
{
    if s.len() == 0 {
        seq![]
    } else {
        escaped(s.drop_last()) + escape_text(s.last())
    }
}

/// A string literal in double quotes, with its escapes.
pub open spec fn quoted(s: Seq<char>) -> Seq<char> {
    seq!['"'] + escaped(s) + seq!['"']
}

/// How a string is written: as it is when it starts with `#`, or with a
/// single `:`; as a string literal otherwise.
pub open spec fn str_text(s: Seq<char>) -> Seq<char> {
    if s.len() > 0 && s[0] == '#' {
        s
    } else if s.len() > 0 && s[0] == ':' && !(s.len() > 1 && s[1] == ':') {
        s
    } else {
        quoted(s)
    }
}

/// How a boolean is written.
pub open spec fn bool_text(b: bool) -> Seq<char> {
    if b { "true"@ } else { "false"@ }
}

/// The name of a tag, without its leading colon.
pub open spec fn tag_name(tag: Seq<char>) -> Seq<char> {
    if tag.len() > 0 && tag[0] == ':' {
        tag.subrange(1, tag.len() as int)
    } else {
        tag
    }
}

/// The EDN text of a value, or the message of the error that stops writing
/// it.
pub open spec fn write_value(v: EdnValue) -> Result<Seq<char>, Seq<char>>
    decreases v, 0int,
{
    match v {
        EdnValue::Nil => Ok("nil"@),
        EdnValue::Bool(b) => Ok(bool_text(b)),
        EdnValue::Str(s) => Ok(quoted(s)),
        EdnValue::Char(c) => Ok(char_text(c)),
        EdnValue::Symbol(t) => Ok(t),
        EdnValue::Keyword(t) => Ok(t),
        EdnValue::Integer(n) => Ok(int_text(n)),
        EdnValue::Float(t) => Ok(t),
        EdnValue::List(items) => match write_items(items) {
            Ok(t) => Ok(seq!['('] + t + seq![')']),
            Err(e) => Err(e),
        },
        EdnValue::Vector(items) => match write_items(items) {
            Ok(t) => Ok(seq!['['] + t + seq![']']),
            Err(e) => Err(e),
        },
        EdnValue::SetVal(items) => match write_items(items) {
            Ok(t) => Ok(seq!['#', '{'] + t + seq!['}']),
            Err(e) => Err(e),
        },
        EdnValue::MapVal(entries) => match write_entries(entries) {
            Ok(t) => Ok(seq!['{'] + t + seq!['}']),
            Err(e) => Err(e),
        },
        EdnValue::Tagged(tag, inner) => write_tagged(tag_name(tag), *inner),
    }
}

/// Items separated by single spaces.
pub open spec fn write_items(items: Seq<EdnValue>) -> Result<Seq<char>, Seq<char>>
    decreases items, 0int,
{
    if items.len() == 0 {
        Ok(seq![])
    } else {
        match write_value(items[0]) {
            Err(e) => Err(e),
            Ok(first) => if items.len() == 1 {
                Ok(first)
            } else {
                match write_items(items.subrange(1, items.len() as int)) {
                    Ok(rest) => Ok(first + seq![' '] + rest),
                    Err(e) => Err(e),
                }
            },
        }
    }
}

/// Entries as key, space, value, separated by single spaces.
pub open spec fn write_entries(entries: Seq<(EdnValue, EdnValue)>) -> Result<Seq<char>, Seq<char>>
    decreases entries, 0int,
{
    if entries.len() == 0 {
        Ok(seq![])
    } else {
        match write_value(entries[0].0) {
            Err(e) => Err(e),
            Ok(k) => match write_value(entries[0].1) {
                Err(e) => Err(e),
                Ok(v) => if entries.len() == 1 {
                    Ok(k + seq![' '] + v)
                } else {
                    match write_entries(entries.subrange(1, entries.len() as int)) {
                        Ok(rest) => Ok(k + seq![' '] + v + seq![' '] + rest),
                        Err(e) => Err(e),
                    }
                },
            },
        }
    }
}

/// A tagged value: `#inst` takes an integer and writes its instant as an
/// RFC 3339 string, `#uuid` takes a string; other tags write the value after
/// the tag.
pub open spec fn write_tagged(name: Seq<char>, inner: EdnValue) -> Result<Seq<char>, Seq<char>>
    decreases inner, 2int,
{
    if name == "inst"@ {
        match inner {
            EdnValue::Integer(ms) => Ok("#inst \""@ + inst_text(ms as i64) + seq!['"']),
            _ => Err("expected Integer for #inst"@),
        }
    } else if name == "uuid"@ {
        match inner {
            EdnValue::Str(t) => Ok("#uuid \""@ + t + seq!['"']),
            _ => Err("expected string for #uuid"@),
        }
    } else {
        write_tag_value(name, inner)
    }
}

/// A tagged value other than `#inst` and `#uuid`: `#name`, a space and the
/// value: a character after a bare backslash, anything else as it is written
/// on its own; an error in writing the value comes after
/// `serialization error: `.
pub open spec fn write_tag_value(name: Seq<char>, inner: EdnValue) -> Result<Seq<char>, Seq<char>>
    decreases inner, 1int,
{
    match inner {
        EdnValue::Char(c) => Ok(seq!['#'] + name + seq![' '] + seq!['\\', c]),
        _ => match write_value(inner) {
            Ok(t) => Ok(seq!['#'] + name + seq![' '] + t),
            Err(e) => Err("serialization error: "@ + e),
        },
    }
}

/// A tagged value as `#name` and a space before the value, as the text that
/// stands for it in a string: strings in quotes but without escapes,
/// characters after a bare backslash, other
/// scalars as they are written, collections and tagged values as written on
/// their own, their error after `serialization error: `.
pub open spec fn write_custom_tagged(name: Seq<char>, inner: EdnValue) -> Result<Seq<char>, Seq<char>>
    decreases inner, 1int,
{
    let head = seq!['#'] + name + seq![' '];
    match inner {
        EdnValue::Str(t) => Ok(head + seq!['"'] + t + seq!['"']),
        EdnValue::Integer(n) => Ok(head + int_text(n)),
        EdnValue::Float(t) => Ok(head + t),
        EdnValue::Bool(b) => Ok(head + bool_text(b)),
        EdnValue::Nil => Ok(head + "nil"@),
        EdnValue::Char(c) => Ok(head + seq!['\\', c]),
        EdnValue::Keyword(t) => Ok(head + t),
        EdnValue::Symbol(t) => Ok(head + t),
        _ => match write_value(inner) {
            Ok(t) => Ok(head + t),
            Err(e) => Err("serialization error: "@ + e),
        },
    }
}

/// The text a tagged value is handed over as at the top of a document:
/// `#name` and a space, then a string in quotes without escapes, a scalar
/// as `Integer(..)`, `Bool(..)`, `Nil`, `Keyword(..)` or `Symbol(..)`, or a
/// collection or tagged value as its EDN text, its error after
/// `serialization error: `. `None` for a float or a character, whose text
/// takes the number of the float or the debug form of the character.
pub open spec fn debug_tagged_text(name: Seq<char>, inner: EdnValue) -> Option<Result<Seq<char>, Seq<char>>> {
    let head = seq!['#'] + name + seq![' '];
    match inner {
        EdnValue::Str(t) => Some(Ok(head + seq!['"'] + t + seq!['"'])),
        EdnValue::Integer(n) => Some(Ok(head + "Integer("@ + int_text(n) + seq![')'])),
        EdnValue::Bool(b) => Some(Ok(head + "Bool("@ + bool_text(b) + seq![')'])),
        EdnValue::Nil => Some(Ok(head + "Nil"@)),
        EdnValue::Keyword(t) => Some(Ok(head + "Keyword("@ + t + seq![')'])),
        EdnValue::Symbol(t) => Some(Ok(head + "Symbol("@ + t + seq![')'])),
        EdnValue::Float(_) => None,
        EdnValue::Char(_) => None,
        _ => Some(match write_value(inner) {
            Ok(t) => Ok(head + t),
            Err(e) => Err("serialization error: "@ + e),
        }),
    }
}

} // verus!

verus! {

/// Writing items with one more at the end adds a space and its text.
pub proof fn lemma_write_items_push(xs: Seq<EdnValue>, x: EdnValue)
    ensures
        write_items(xs.push(x)) == (match write_items(xs) {
            Err(e) => Err(e),
            Ok(t) => match write_value(x) {
                Err(e) => Err(e),
                Ok(w) => Ok(if xs.len() == 0 { w } else { t + seq![' '] + w }),
            },
        }),
    decreases xs.len(),
{
    let ys = xs.push(x);
    if xs.len() > 0 {
        assert(ys[0] == xs[0]);
        let rest = xs.subrange(1, xs.len() as int);
        assert(ys.subrange(1, ys.len() as int) =~= rest.push(x));
        lemma_write_items_push(rest, x);
        if xs.len() == 1 {
            assert(rest.len() == 0);
        }
        match write_value(xs[0]) {
            Err(e) => {},
            Ok(first) => {
                if xs.len() > 1 {
                    match write_items(rest) {
                        Ok(t) => {
                            match write_value(x) {
                                Ok(w) => {
                                    assert(first + seq![' '] + (t + seq![' '] + w) =~= (first + seq![' '] + t) + seq![' '] + w);
                                },
                                Err(e) => {},
                            }
                        },
                        Err(e) => {},
                    }
                }
            },
        }
    } else {
        assert(ys.len() == 1);
    }
}

/// Writing entries with one more at the end adds a space and its text.
pub proof fn lemma_write_entries_push(xs: Seq<(EdnValue, EdnValue)>, x: (EdnValue, EdnValue))
    ensures
        write_entries(xs.push(x)) == (match write_entries(xs) {
            Err(e) => Err(e),
            Ok(t) => match write_value(x.0) {
                Err(e) => Err(e),
                Ok(k) => match write_value(x.1) {
                    Err(e) => Err(e),
                    Ok(v) => Ok(if xs.len() == 0 { k + seq![' '] + v } else { t + seq![' '] + k + seq![' '] + v }),
                },
            },
        }),
    decreases xs.len(),
{
    let ys = xs.push(x);
    if xs.len() > 0 {
        assert(ys[0] == xs[0]);
        let rest = xs.subrange(1, xs.len() as int);
        assert(ys.subrange(1, ys.len() as int) =~= rest.push(x));
        lemma_write_entries_push(rest, x);
        match write_value(xs[0].0) {
            Err(e) => {},
            Ok(k0) => match write_value(xs[0].1) {
                Err(e) => {},
                Ok(v0) => {
                    if xs.len() > 1 {
                        match write_entries(rest) {
                            Ok(t) => match write_value(x.0) {
                                Ok(k) => match write_value(x.1) {
                                    Ok(v) => {
                                        assert(k0 + seq![' '] + v0 + seq![' '] + (t + seq![' '] + k + seq![' '] + v)
                                            =~= (k0 + seq![' '] + v0 + seq![' '] + t) + seq![' '] + k + seq![' '] + v);
                                    },
                                    Err(e) => {},
                                },
                                Err(e) => {},
                            },
                            Err(e) => {},
                        }
                    } else {
                        assert(rest.len() == 0);
                        match write_value(x.0) {
                            Ok(k) => match write_value(x.1) {
                                Ok(v) => {
                                    assert(k0 + seq![' '] + v0 + seq![' '] + (k + seq![' '] + v)
                                        =~= (k0 + seq![' '] + v0) + seq![' '] + k + seq![' '] + v);
                                },
                                Err(e) => {},
                            },
                            Err(e) => {},
                        }
                    }
                },
            },
        }
    } else {
        assert(ys.len() == 1);
    }
}

} // verus!

verus! {

/// Writes EDN text into a buffer of characters.
pub struct Serializer {
    output: Vec<char>,
}

/// `b` starts with `a`.
pub open spec fn extends(a: Seq<char>, b: Seq<char>) -> bool {
    a.len() <= b.len() && b.subrange(0, a.len() as int) == a
}

fn digit(d: u64) -> (r: char)
    requires
        d < 10,
    ensures
        r == digit_char(d as int),
{
    if d == 0 { '0' } else if d == 1 { '1' } else if d == 2 { '2' } else if d == 3 { '3' }
    else if d == 4 { '4' } else if d == 5 { '5' } else if d == 6 { '6' } else if d == 7 { '7' }
    else if d == 8 { '8' } else { '9' }
}

fn hex_digit(d: u32) -> (r: char)
    requires
        d < 16,
    ensures
        r == hex_char(d as int),
{
    if d < 10 { digit(d as u64) } else if d == 10 { 'A' } else if d == 11 { 'B' } else if d == 12 { 'C' }
    else if d == 13 { 'D' } else if d == 14 { 'E' } else { 'F' }
}

proof fn lemma_hex_len(n: nat)
    ensures
        n < 0x10 ==> hex_text(n).len() == 1,
        0x10 <= n < 0x100 ==> hex_text(n).len() == 2,
        0x100 <= n < 0x1000 ==> hex_text(n).len() == 3,
        0x1000 <= n ==> hex_text(n).len() >= 4,
    decreases n,
{
    if n >= 16 {
        lemma_hex_len(n / 16);
    }
}

impl Serializer {
    /// The text written so far.
    pub closed spec fn text(self) -> Seq<char> {
        self.output@
    }

    /// A serializer with nothing written.
    pub fn new() -> (r: Serializer)
        ensures
            r.text() == Seq::<char>::empty(),
    {
        Serializer { output: Vec::new() }
    }

    /// The text written.
    pub fn into_output(self) -> (r: String)
        ensures
            r@ == self.text(),
    {
        crate::chars::chars_to_string(&self.output)
    }

    fn push(&mut self, c: char)
        ensures
            final(self).text() == old(self).text().push(c),
    {
        self.output.push(c);
    }

    fn push_lit(&mut self, lit: &str)
        ensures
            final(self).text() == old(self).text() + lit@,
    {
        crate::chars::push_str(&mut self.output, lit);
    }

    fn push_all(&mut self, extra: &Vec<char>)
        ensures
            final(self).text() == old(self).text() + extra@,
    {
        crate::chars::push_chars(&mut self.output, extra);
    }

    /// Writes `s` as a string literal in double quotes, escaping `"`, `\`,
    /// line feed, carriage return and tab.
    pub fn write_escaped_string(&mut self, s: &str)
        ensures
            final(self).text() == old(self).text() + quoted(s@),
    {
        let ghost start = self.text();
        self.push('"');
        let n = s.unicode_len();
        let mut i: usize = 0;
        assert(s@.subrange(0, 0) =~= Seq::<char>::empty());
        while i < n
            invariant
                n == s@.len(),
                i <= n,
                self.text() == start + seq!['"'] + escaped(s@.subrange(0, i as int)),
            decreases n - i,
        {
            let c = s.get_char(i);
            assert(s@.subrange(0, i + 1).drop_last() =~= s@.subrange(0, i as int));
            assert(s@.subrange(0, i + 1).last() == c);
            let ghost before = self.text();
            if c == '"' {
                self.push('\\');
                self.push('"');
            } else if c == '\\' {
                self.push('\\');
                self.push('\\');
            } else if c == '\n' {
                self.push('\\');
                self.push('n');
            } else if c == '\r' {
                self.push('\\');
                self.push('r');
            } else if c == '\t' {
                self.push('\\');
                self.push('t');
            } else {
                self.push(c);
            }
            assert(self.text() =~= before + escape_text(c));
            i = i + 1;
        }
        assert(s@.subrange(0, n as int) =~= s@);
        self.push('"');
        assert(self.text() =~= old(self).text() + quoted(s@));
    }

    fn push_hex(&mut self, n: u32)
        ensures
            final(self).text() == old(self).text() + hex_text(n as nat),
        decreases n,
    {
        if n >= 16 {
            self.push_hex(n / 16);
        }
        let c = hex_digit(n % 16);
        self.push(c);
        assert(self.text() =~= old(self).text() + hex_text(n as nat));
    }

    /// Writes a character literal: `\newline`, `\return`, `\tab`, `\space`;
    /// the character itself after `\` when it is ASCII other than `u`, or
    /// its code is above `FFFF`; `\u` and its code in four upper-case hex
    /// digits otherwise.
    pub fn write_edn_char(&mut self, c: char)
        ensures
            final(self).text() == old(self).text() + char_text(c),
    {
        proof {
            reveal_strlit("newline");
            reveal_strlit("return");
            reveal_strlit("tab");
            reveal_strlit("space");
        }
        self.push('\\');
        if c == '\n' {
            self.push_lit("newline");
        } else if c == '\r' {
            self.push_lit("return");
        } else if c == '\t' {
            self.push_lit("tab");
        } else if c == ' ' {
            self.push_lit("space");
        } else if (c as u32) <= 0x7F && c != 'u' {
            self.push(c);
        } else if (c as u32) > 0xFFFF {
            self.push(c);
        } else {
            self.push('u');
            let code = c as u32;
            proof { lemma_hex_len(code as nat); }
            if code < 0x10 {
                self.push('0');
                self.push('0');
                self.push('0');
            } else if code < 0x100 {
                self.push('0');
                self.push('0');
            } else if code < 0x1000 {
                self.push('0');
            }
            self.push_hex(code);
            assert(hex4_text(code as nat) =~= if code < 0x10 {
                seq!['0', '0', '0'] + hex_text(code as nat)
            } else if code < 0x100 {
                seq!['0', '0'] + hex_text(code as nat)
            } else if code < 0x1000 {
                seq!['0'] + hex_text(code as nat)
            } else {
                hex_text(code as nat)
            });
        }
        assert(self.text() =~= old(self).text() + char_text(c));
    }

    fn push_nat(&mut self, n: u64)
        ensures
            final(self).text() == old(self).text() + nat_text(n as nat),
        decreases n,
    {
        if n >= 10 {
            self.push_nat(n / 10);
        }
        let c = digit(n % 10);
        self.push(c);
        assert(self.text() =~= old(self).text() + nat_text(n as nat));
    }

    /// Writes an integer in decimal.
    pub fn serialize_i64(&mut self, v: i64)
        ensures
            final(self).text() == old(self).text() + int_text(v as int),
    {
        if v < 0 {
            self.push('-');
            let m: u64 = (0i128 - v as i128) as u64;
            self.push_nat(m);
        } else {
            self.push_nat(v as u64);
        }
        assert(self.text() =~= old(self).text() + int_text(v as int));
    }

    /// Writes `true` or `false`.
    pub fn serialize_bool(&mut self, b: bool)
        ensures
            final(self).text() == old(self).text() + bool_text(b),
    {
        if b {
            self.push_lit("true");
        } else {
            self.push_lit("false");
        }
    }

    /// Writes `nil`.
    pub fn serialize_unit(&mut self)
        ensures
            final(self).text() == old(self).text() + "nil"@,
    {
        self.push_lit("nil");
    }

    /// Writes a string: as it is when it starts with `#`, or with a single
    /// `:`; as a string literal otherwise.
    pub fn serialize_str(&mut self, s: &str)
        ensures
            final(self).text() == old(self).text() + str_text(s@),
    {
        let n = s.unicode_len();
        if n > 0 && s.get_char(0) == '#' {
            self.push_lit(s);
        } else if n > 0 && s.get_char(0) == ':' && !(n > 1 && s.get_char(1) == ':') {
            self.push_lit(s);
        } else {
            self.write_escaped_string(s);
        }
    }

    /// Writes a character literal.
    pub fn serialize_char(&mut self, c: char)
        ensures
            final(self).text() == old(self).text() + char_text(c),
    {
        self.write_edn_char(c);
    }
}

} // verus!

verus! {

/// An error in writing the first items is the error of writing them all.
pub proof fn lemma_write_items_err(xs: Seq<EdnValue>, i: int, m: Seq<char>)
    requires
        0 <= i <= xs.len(),
        write_items(xs.subrange(0, i)) == Err::<Seq<char>, Seq<char>>(m),
    ensures
        write_items(xs) == Err::<Seq<char>, Seq<char>>(m),
    decreases xs.len() - i,
{
    if i < xs.len() {
        assert(xs.subrange(0, i + 1) =~= xs.subrange(0, i).push(xs[i]));
        lemma_write_items_push(xs.subrange(0, i), xs[i]);
        lemma_write_items_err(xs, i + 1, m);
    } else {
        assert(xs.subrange(0, i) =~= xs);
    }
}

/// An error in writing the first entries is the error of writing them all.
pub proof fn lemma_write_entries_err(xs: Seq<(EdnValue, EdnValue)>, i: int, m: Seq<char>)
    requires
        0 <= i <= xs.len(),
        write_entries(xs.subrange(0, i)) == Err::<Seq<char>, Seq<char>>(m),
    ensures
        write_entries(xs) == Err::<Seq<char>, Seq<char>>(m),
    decreases xs.len() - i,
{
    if i < xs.len() {
        assert(xs.subrange(0, i + 1) =~= xs.subrange(0, i).push(xs[i]));
        lemma_write_entries_push(xs.subrange(0, i), xs[i]);
        lemma_write_entries_err(xs, i + 1, m);
    } else {
        assert(xs.subrange(0, i) =~= xs);
    }
}

proof fn lemma_extends_trans(a: Seq<char>, b: Seq<char>, c: Seq<char>)
    requires
        extends(a, b),
        extends(b, c),
    ensures
        extends(a, c),
{
    assert(c.subrange(0, a.len() as int) =~= b.subrange(0, a.len() as int));
}

proof fn lemma_extends_add(a: Seq<char>, t: Seq<char>)
    ensures
        extends(a, a + t),
        extends(a, a),
        extends(a, a.push(' ')),
{
    assert((a + t).subrange(0, a.len() as int) =~= a);
    assert(a.subrange(0, a.len() as int) =~= a);
    assert(a.push(' ').subrange(0, a.len() as int) =~= a);
}

/// What writing gives, as a result of the library: the text, or the error
/// with its message.
pub open spec fn written(r: Result<(), Error>, before: Seq<char>, after: Seq<char>, w: Result<Seq<char>, Seq<char>>) -> bool {
    &&& extends(before, after)
    &&& match w {
        Ok(t) => r is Ok && after == before + t,
        Err(m) => r matches Err(e) && e@ == ErrorView::Custom(m),
    }
}

fn tag_name_of(tag: &Vec<char>) -> (r: Vec<char>)
    requires
        tag.len() < usize::MAX,
    ensures
        r@ == tag_name(tag@),
{
    if tag.len() > 0 && tag[0] == ':' {
        let mut out: Vec<char> = Vec::new();
        let mut i: usize = 1;
        while i < tag.len()
            invariant
                1 <= i <= tag.len(),
                out@ == tag@.subrange(1, i as int),
            decreases tag.len() - i,
        {
            out.push(tag[i]);
            i = i + 1;
            assert(out@ =~= tag@.subrange(1, i as int));
        }
        out
    } else {
        let mut out: Vec<char> = Vec::new();
        crate::chars::push_chars(&mut out, tag);
        assert(out@ =~= tag@);
        out
    }
}

impl Serializer {
    /// Writes a value as EDN text; see [`write_value`]. On an error the text
    /// written before the call stays at the start.
    pub fn serialize_value(&mut self, v: &Value) -> (r: Result<(), Error>)
        ensures
            written(r, old(self).text(), final(self).text(), write_value(v@)),
        decreases v, 2int,
    {
        let ghost start = self.text();
        proof {
            reveal_strlit("nil");
            reveal_strlit("(");
            reveal_strlit("[");
            reveal_strlit("#{");
            assert("("@ =~= seq!['(']);
            assert("["@ =~= seq!['[']);
            assert("#{"@ =~= seq!['#', '{']);
        }
        match v {
            Value::Nil => {
                assert(v@ == EdnValue::Nil);
                assert(write_value(v@) == Ok::<Seq<char>, Seq<char>>("nil"@));
                self.serialize_unit();
                assert(self.text() == start + "nil"@);
                assert(self.text() == old(self).text() + "nil"@);
                proof { lemma_extends_add(start, "nil"@); }
                Ok(())
            },
            Value::Bool(b) => {
                self.serialize_bool(*b);
                proof { lemma_extends_add(start, bool_text(*b)); }
                Ok(())
            },
            Value::String(s) => {
                self.write_escaped_string(s.as_str());
                proof { lemma_extends_add(start, quoted(s@)); }
                Ok(())
            },
            Value::Char(c) => {
                self.write_edn_char(*c);
                proof { lemma_extends_add(start, char_text(*c)); }
                Ok(())
            },
            Value::Symbol(s) => {
                self.push_lit(s.0.as_str());
                proof { lemma_extends_add(start, s.0@); }
                Ok(())
            },
            Value::Keyword(k) => {
                self.push_lit(k.0.as_str());
                proof { lemma_extends_add(start, k.0@); }
                Ok(())
            },
            Value::Integer(n) => {
                self.serialize_i64(*n);
                proof { lemma_extends_add(start, int_text(*n as int)); }
                Ok(())
            },
            Value::Float(t) => {
                self.push_lit(t.as_str());
                proof { lemma_extends_add(start, t@); }
                Ok(())
            },
            Value::List(items) => {
                proof { crate::value::lemma_list_view(*items); }
                let r = self.serialize_bracketed(v, items, "(", ')');
                assert(write_value(v@) == match write_items(views(items@)) {
                    Ok(t) => Ok("("@ + t + seq![')']),
                    Err(m) => Err::<Seq<char>, Seq<char>>(m),
                });
                r
            },
            Value::Vector(items) => {
                proof { crate::value::lemma_vector_view(*items); }
                let r = self.serialize_bracketed(v, items, "[", ']');
                assert(write_value(v@) == match write_items(views(items@)) {
                    Ok(t) => Ok("["@ + t + seq![']']),
                    Err(m) => Err::<Seq<char>, Seq<char>>(m),
                });
                r
            },
            Value::SetVal(items) => {
                proof { crate::value::lemma_set_view(*items); }
                let r = self.serialize_bracketed(v, items, "#{", '}');
                assert(write_value(v@) == match write_items(views(items@)) {
                    Ok(t) => Ok("#{"@ + t + seq!['}']),
                    Err(m) => Err::<Seq<char>, Seq<char>>(m),
                });
                r
            },
            Value::MapVal(entries) => {
                proof { crate::value::lemma_map_view(*entries); }
                self.push('{');
                let r = self.serialize_entries(v, entries);
                match r {
                    Ok(()) => {
                        self.push('}');
                        proof {
                            match write_entries(entry_views(entries@)) {
                                Ok(t) => { assert(self.text() =~= start + (seq!['{'] + t + seq!['}'])); },
                                Err(_) => {},
                            }
                            lemma_extends_add(start, self.text().subrange(start.len() as int, self.text().len() as int));
                            assert(self.text() =~= start + self.text().subrange(start.len() as int, self.text().len() as int));
                        }
                        Ok(())
                    },
                    Err(e) => {
                        proof {
                            lemma_extends_add(start, seq!['{']);
                            assert(start.push('{') =~= start + seq!['{']);
                            lemma_extends_trans(start, start.push('{'), self.text());
                        }
                        Err(e)
                    },
                }
            },
            Value::Tagged { tag, value } => {
                let r = self.serialize_tagged(v, tag, value);
                assert(write_value(v@) == write_tagged(tag_name(tag.0@), value@));
                r
            },
        }
    }

    fn serialize_bracketed(&mut self, parent: &Value, items: &Vec<Value>, open: &str, close: char) -> (r: Result<(), Error>)
        requires
            crate::value::holds_items(*parent, *items),
        ensures
            written(r, old(self).text(), final(self).text(), match write_items(views(items@)) {
                Ok(t) => Ok(open@ + t + seq![close]),
                Err(m) => Err(m),
            }),
        decreases parent, 1int,
    {
        let ghost start = self.text();
        self.push_lit(open);
        let ghost mid = self.text();
        proof { lemma_extends_add(start, open@); }
        let r = self.serialize_items(parent, items);
        match r {
            Ok(()) => {
                self.push(close);
                proof {
                    match write_items(views(items@)) {
                        Ok(t) => { assert(self.text() =~= start + (open@ + t + seq![close])); },
                        Err(_) => {},
                    }
                    let t = self.text().subrange(start.len() as int, self.text().len() as int);
                    lemma_extends_add(start, t);
                    assert(self.text() =~= start + t);
                }
                Ok(())
            },
            Err(e) => {
                proof { lemma_extends_trans(start, mid, self.text()); }
                Err(e)
            },
        }
    }

    fn serialize_items(&mut self, parent: &Value, items: &Vec<Value>) -> (r: Result<(), Error>)
        requires
            crate::value::holds_items(*parent, *items),
        ensures
            written(r, old(self).text(), final(self).text(), write_items(views(items@))),
        decreases parent, 0int,
    {
        let ghost start = self.text();
        let ghost xs = views(items@);
        let ghost mut t: Seq<char> = Seq::empty();
        let mut i: usize = 0;
        assert(xs.subrange(0, 0) =~= Seq::<EdnValue>::empty());
        proof { lemma_extends_add(start, t); assert(start + t =~= start); }
        while i < items.len()
            invariant
                i <= items.len(),
                xs == views(items@),
                crate::value::holds_items(*parent, *items),
                write_items(xs.subrange(0, i as int)) == Ok::<Seq<char>, Seq<char>>(t),
                start == old(self).text(),
                self.text() == start + t,
                extends(start, self.text()),
            decreases items.len() - i,
        {
            proof {
                assert(decreases_to!(parent => items@[i as int]));
                lemma_write_items_push(xs.subrange(0, i as int), xs[i as int]);
                assert(xs.subrange(0, i + 1) =~= xs.subrange(0, i as int).push(xs[i as int]));
                assert(xs[i as int] == items@[i as int]@);
            }
            let ghost before = self.text();
            if i > 0 {
                self.push(' ');
            }
            let ghost mid = self.text();
            proof { lemma_extends_add(before, Seq::empty()); }
            match self.serialize_value(&items[i]) {
                Ok(()) => {},
                Err(e) => {
                    proof {
                        lemma_write_items_err(xs, i + 1, e@->Custom_0);
                        lemma_extends_trans(start, before, mid);
                        lemma_extends_trans(start, mid, self.text());
                    }
                    return Err(e);
                },
            }
            proof {
                let w = self.text().subrange(mid.len() as int, self.text().len() as int);
                match write_value(xs[i as int]) {
                    Ok(tw) => { assert(w =~= tw); },
                    Err(_) => {},
                }
                assert(self.text() =~= mid + w);
                let nt = if i == 0 { w } else { t + seq![' '] + w };
                assert(self.text() =~= start + nt);
                t = nt;
                lemma_extends_add(start, t);
            }
            i = i + 1;
        }
        assert(xs.subrange(0, i as int) =~= xs);
        Ok(())
    }

    fn serialize_entries(&mut self, parent: &Value, entries: &Vec<(Value, Value)>) -> (r: Result<(), Error>)
        requires
            parent matches Value::MapVal(p) && p == *entries,
        ensures
            written(r, old(self).text(), final(self).text(), write_entries(entry_views(entries@))),
        decreases parent, 1int,
    {
        let ghost start = self.text();
        let ghost xs = entry_views(entries@);
        let ghost mut t: Seq<char> = Seq::empty();
        let mut i: usize = 0;
        assert(xs.subrange(0, 0) =~= Seq::<(EdnValue, EdnValue)>::empty());
        proof { lemma_extends_add(start, t); assert(start + t =~= start); }
        while i < entries.len()
            invariant
                i <= entries.len(),
                xs == entry_views(entries@),
                parent matches Value::MapVal(p) && p == *entries,
                write_entries(xs.subrange(0, i as int)) == Ok::<Seq<char>, Seq<char>>(t),
                start == old(self).text(),
                self.text() == start + t,
                extends(start, self.text()),
            decreases entries.len() - i,
        {
            proof {
                assert(decreases_to!(parent => entries@[i as int].0));
                assert(decreases_to!(parent => entries@[i as int].1));
                lemma_write_entries_push(xs.subrange(0, i as int), xs[i as int]);
                assert(xs.subrange(0, i + 1) =~= xs.subrange(0, i as int).push(xs[i as int]));
                assert(xs[i as int] == (entries@[i as int].0@, entries@[i as int].1@));
            }
            let ghost before = self.text();
            if i > 0 {
                self.push(' ');
            }
            let ghost mid = self.text();
            proof { lemma_extends_add(before, Seq::empty()); }
            match self.serialize_value(&entries[i].0) {
                Ok(()) => {},
                Err(e) => {
                    proof {
                        lemma_write_entries_err(xs, i + 1, e@->Custom_0);
                        lemma_extends_trans(start, before, mid);
                        lemma_extends_trans(start, mid, self.text());
                    }
                    return Err(e);
                },
            }
            let ghost kt = self.text();
            self.push(' ');
            let ghost mid2 = self.text();
            proof { lemma_extends_add(kt, seq![' ']); }
            match self.serialize_value(&entries[i].1) {
                Ok(()) => {},
                Err(e) => {
                    proof {
                        lemma_write_entries_err(xs, i + 1, e@->Custom_0);
                        lemma_extends_trans(start, before, mid);
                        lemma_extends_trans(start, mid, kt);
                        lemma_extends_trans(start, kt, mid2);
                        lemma_extends_trans(start, mid2, self.text());
                    }
                    return Err(e);
                },
            }
            proof {
                let kw = kt.subrange(mid.len() as int, kt.len() as int);
                assert(kt =~= mid + kw);
                let vw = self.text().subrange(mid2.len() as int, self.text().len() as int);
                match write_value(xs[i as int].0) {
                    Ok(tk) => { assert(kw =~= tk); },
                    Err(_) => {},
                }
                match write_value(xs[i as int].1) {
                    Ok(tv) => { assert(vw =~= tv); },
                    Err(_) => {},
                }
                assert(self.text() =~= mid2 + vw);
                let nt = if i == 0 { kw + seq![' '] + vw } else { t + seq![' '] + kw + seq![' '] + vw };
                assert(self.text() =~= start + nt);
                t = nt;
                lemma_extends_add(start, t);
            }
            i = i + 1;
        }
        assert(xs.subrange(0, i as int) =~= xs);
        Ok(())
    }

    fn serialize_tagged(&mut self, parent: &Value, tag: &Symbol, inner: &Value) -> (r: Result<(), Error>)
        requires
            parent matches Value::Tagged { tag: t, value: b } && t == *tag && *b == *inner,
        ensures
            written(r, old(self).text(), final(self).text(), write_tagged(tag_name(tag.0@), inner@)),
        decreases parent, 0int,
    {
        let ghost start = self.text();
        proof {
            reveal_strlit("inst");
            reveal_strlit("uuid");
            reveal_strlit("nil");
            reveal_strlit("#inst \"");
            reveal_strlit("#uuid \"");
        }
        let tag_chars = crate::chars::str_to_chars(tag.0.as_str());
        let name = tag_name_of(&tag_chars);
        if crate::chars::chars_eq_str(&name, "inst") {
            match inner {
                Value::Integer(ms) => {
                    self.push_lit("#inst \"");
                    let t = crate::tags::format_inst_ms(*ms);
                    self.push_lit(t.as_str());
                    self.push('"');
                    proof {
                        let w = "#inst \""@ + inst_text(*ms) + seq!['"'];
                        assert(self.text() =~= start + w);
                        lemma_extends_add(start, w);
                    }
                    Ok(())
                },
                _ => {
                    proof { lemma_extends_add(start, Seq::empty()); assert(start + Seq::<char>::empty() =~= start); }
                    Err(Error::Custom(string_of("expected Integer for #inst")))
                },
            }
        } else if crate::chars::chars_eq_str(&name, "uuid") {
            match inner {
                Value::String(t) => {
                    self.push_lit("#uuid \"");
                    self.push_lit(t.as_str());
                    self.push('"');
                    proof {
                        let w = "#uuid \""@ + t@ + seq!['"'];
                        assert(self.text() =~= start + w);
                        lemma_extends_add(start, w);
                    }
                    Ok(())
                },
                _ => {
                    proof { lemma_extends_add(start, Seq::empty()); assert(start + Seq::<char>::empty() =~= start); }
                    Err(Error::Custom(string_of("expected string for #uuid")))
                },
            }
        } else {
            proof { assert(decreases_to!(parent => *inner)); }
            self.serialize_tag_value(&name, inner)
        }
    }

    /// Writes `#name`, a space and the value, as on its own, after a tag
    /// other than `#inst` and `#uuid`.
    fn serialize_tag_value(&mut self, name: &Vec<char>, inner: &Value) -> (r: Result<(), Error>)
        ensures
            written(r, old(self).text(), final(self).text(), write_tag_value(name@, inner@)),
        decreases inner, 3int,
    {
        let ghost start = self.text();
        if let Value::Char(c) = inner {
            self.push('#');
            self.push_all(name);
            self.push(' ');
            self.push('\\');
            self.push(*c);
            proof {
                let w = seq!['#'] + name@ + seq![' '] + seq!['\\', *c];
                assert(self.text() =~= start + w);
                lemma_extends_add(start, w);
            }
            return Ok(());
        }
        let mut sub = Serializer::new();
        match sub.serialize_value(inner) {
            Ok(()) => {
                self.push('#');
                self.push_all(name);
                self.push(' ');
                self.push_all(&sub.output);
                proof {
                    let w = seq!['#'] + name@ + seq![' '] + sub.text();
                    assert(self.text() =~= start + w);
                    lemma_extends_add(start, w);
                }
                Ok(())
            },
            Err(e) => {
                let msg = e.message();
                proof { lemma_extends_add(start, Seq::empty()); assert(start + Seq::<char>::empty() =~= start); }
                Err(crate::tags::custom("serialization error: ", &msg))
            },
        }
    }

    /// Writes `#name`, a space and the value after a tag other than `#inst`
    /// and `#uuid`.
    fn serialize_custom_tagged(&mut self, name: &Vec<char>, inner: &Value) -> (r: Result<(), Error>)
        ensures
            written(r, old(self).text(), final(self).text(), write_custom_tagged(name@, inner@)),
        decreases inner, 3int,
    {
        let ghost start = self.text();
        proof { reveal_strlit("nil"); }
        self.push('#');
        self.push_all(name);
        self.push(' ');
        let ghost head = seq!['#'] + name@ + seq![' '];
        assert(self.text() =~= start + head);
        let ghost mid = self.text();
        proof { lemma_extends_add(start, head); }
        match inner {
            Value::String(t) => {
                self.push('"');
                self.push_lit(t.as_str());
                self.push('"');
            },
            Value::Integer(n) => self.serialize_i64(*n),
            Value::Float(t) => self.push_lit(t.as_str()),
            Value::Bool(b) => self.serialize_bool(*b),
            Value::Nil => self.push_lit("nil"),
            Value::Char(c) => {
                self.push('\\');
                self.push(*c);
            },
            Value::Keyword(k) => self.push_lit(k.0.as_str()),
            Value::Symbol(s) => self.push_lit(s.0.as_str()),
            _ => {
                let mut sub = Serializer::new();
                match sub.serialize_value(inner) {
                    Ok(()) => {
                        self.push_all(&sub.output);
                    },
                    Err(e) => {
                        let msg = e.message();
                        proof { lemma_extends_add(mid, Seq::empty()); lemma_extends_trans(start, mid, self.text()); }
                        return Err(crate::tags::custom("serialization error: ", &msg));
                    },
                }
            },
        }
        proof {
            let w = self.text().subrange(start.len() as int, self.text().len() as int);
            assert(self.text() =~= start + w);
            lemma_extends_add(start, w);
            match write_custom_tagged(name@, inner@) {
                Ok(x) => { assert(self.text() =~= start + x); },
                Err(_) => {},
            }
        }
        Ok(())
    }
}

/// The text a tagged value is handed over as at the top of a document; see
/// [`debug_tagged_text`]. `None` for a float or a character.
pub fn tagged_debug_text(tag: &Symbol, value: &Value) -> (r: Option<Result<String, Error>>)
    ensures
        match debug_tagged_text(tag_name(tag.0@), value@) {
            None => r is None,
            Some(Ok(t)) => r matches Some(Ok(x)) && x@ == t,
            Some(Err(m)) => r matches Some(Err(e)) && e@ == ErrorView::Custom(m),
        },
{
    proof {
        reveal_strlit("Integer(");
        reveal_strlit("Bool(");
        reveal_strlit("Nil");
        reveal_strlit("Keyword(");
        reveal_strlit("Symbol(");
    }
    let tag_chars = crate::chars::str_to_chars(tag.0.as_str());
    let name = tag_name_of(&tag_chars);
    let mut ser = Serializer::new();
    ser.push('#');
    ser.push_all(&name);
    ser.push(' ');
    let ghost head = seq!['#'] + name@ + seq![' '];
    assert(ser.text() =~= head);
    match value {
        Value::String(t) => {
            ser.push('"');
            ser.push_lit(t.as_str());
            ser.push('"');
            assert(ser.text() =~= head + seq!['"'] + t@ + seq!['"']);
        },
        Value::Integer(n) => {
            ser.push_lit("Integer(");
            ser.serialize_i64(*n);
            ser.push(')');
            assert(ser.text() =~= head + "Integer("@ + int_text(*n as int) + seq![')']);
        },
        Value::Bool(b) => {
            ser.push_lit("Bool(");
            ser.serialize_bool(*b);
            ser.push(')');
            assert(ser.text() =~= head + "Bool("@ + bool_text(*b) + seq![')']);
        },
        Value::Nil => {
            ser.push_lit("Nil");
        },
        Value::Keyword(k) => {
            ser.push_lit("Keyword(");
            ser.push_lit(k.0.as_str());
            ser.push(')');
            assert(ser.text() =~= head + "Keyword("@ + k.0@ + seq![')']);
        },
        Value::Symbol(x) => {
            ser.push_lit("Symbol(");
            ser.push_lit(x.0.as_str());
            ser.push(')');
            assert(ser.text() =~= head + "Symbol("@ + x.0@ + seq![')']);
        },
        Value::Float(_) => {
            return None;
        },
        Value::Char(_) => {
            return None;
        },
        _ => {
            let mut sub = Serializer::new();
            match sub.serialize_value(value) {
                Ok(()) => {
                    ser.push_all(&sub.output);
                    assert(ser.text() =~= head + sub.text());
                },
                Err(e) => {
                    let msg = e.message();
                    return Some(Err(crate::tags::custom("serialization error: ", &msg)));
                },
            }
        },
    }
    Some(Ok(ser.into_output()))
}

/// The text of a tagged value as `#name value`, the name being the tag
/// without its leading colon; see [`write_custom_tagged`].
pub fn tagged_text(tag: &Symbol, value: &Value) -> (r: Result<String, Error>)
    ensures
        match write_custom_tagged(tag_name(tag.0@), value@) {
            Ok(t) => r matches Ok(s) && s@ == t,
            Err(m) => r matches Err(e) && e@ == ErrorView::Custom(m),
        },
{
    let tag_chars = crate::chars::str_to_chars(tag.0.as_str());
    let name = tag_name_of(&tag_chars);
    let mut ser = Serializer::new();
    match ser.serialize_custom_tagged(&name, value) {
        Ok(()) => {
            proof { assert(ser.text() =~= Seq::<char>::empty() + ser.text()); }
            Ok(ser.into_output())
        },
        Err(e) => Err(e),
    }
}

/// Writes a value as EDN text; see [`write_value`].
pub fn to_string(v: &Value) -> (r: Result<String, Error>)
    ensures
        match write_value(v@) {
            Ok(t) => r matches Ok(s) && s@ == t,
            Err(m) => r matches Err(e) && e@ == ErrorView::Custom(m),
        },
{
    let mut ser = Serializer::new();
    match ser.serialize_value(v) {
        Ok(()) => Ok(ser.into_output()),
        Err(e) => Err(e),
    }
}

} // verus!

verus! {

/// Writes the items of a list, vector or set, separated by spaces, then the
/// closing bracket.
pub struct SeqSerializer<'a> {
    pub serializer: &'a mut Serializer,
    pub first: bool,
    pub end: char,
}

/// The separator written before an item: none before the first.
pub open spec fn separator(first: bool) -> Seq<char> {
    if first { Seq::empty() } else { seq![' '] }
}

impl Serializer {
    /// Writes the separator before an item and notes that the next item is
    /// not the first.
    fn separate(&mut self, first: &mut bool)
        ensures
            final(self).text() == old(self).text() + separator(*old(first)),
            !*final(first),
    {
        if !*first {
            self.push(' ');
        }
        *first = false;
        assert(self.text() =~= old(self).text() + separator(*old(first)));
    }

    /// Writes the separator, then a value.
    fn separated_value(&mut self, first: &mut bool, value: &Value) -> (r: Result<(), Error>)
        ensures
            !*final(first),
            written(r, old(self).text(), final(self).text(), match write_value(value@) {
                Ok(t) => Ok(separator(*old(first)) + t),
                Err(m) => Err(m),
            }),
    {
        let ghost start = self.text();
        self.separate(first);
        let ghost mid = self.text();
        proof { lemma_extends_add(start, separator(*old(first))); }
        let r = self.serialize_value(value);
        proof {
            lemma_extends_trans(start, mid, self.text());
            match write_value(value@) {
                Ok(t) => { assert(self.text() =~= start + (separator(*old(first)) + t)); },
                Err(_) => {},
            }
        }
        r
    }
}

impl<'a> SeqSerializer<'a> {
    /// Items written into `serializer`, closed by `end`.
    pub fn new(serializer: &'a mut Serializer, end: char) -> (r: SeqSerializer<'a>)
        ensures
            *r.serializer == *old(serializer),
            *final(r.serializer) == *final(serializer),
            r.first,
            r.end == end,
    {
        SeqSerializer { serializer, first: true, end }
    }

    /// Writes the separator before the next item.
    pub fn begin_element(&mut self)
        ensures
            *final(final(self).serializer) == *final(old(self).serializer),
            final(self).serializer.text() == old(self).serializer.text() + separator(old(self).first),
            !final(self).first,
            final(self).end == old(self).end,
    {
        self.serializer.separate(&mut self.first);
    }

    /// Writes the next item.
    pub fn serialize_element(&mut self, value: &Value) -> (r: Result<(), Error>)
        ensures
            *final(final(self).serializer) == *final(old(self).serializer),
            written(r, old(self).serializer.text(), final(self).serializer.text(), match write_value(value@) {
                Ok(t) => Ok(separator(old(self).first) + t),
                Err(m) => Err(m),
            }),
            !final(self).first,
            final(self).end == old(self).end,
    {
        self.serializer.separated_value(&mut self.first, value)
    }

    /// Writes the closing bracket.
    pub fn end(self)
        ensures
            final(self.serializer).text() == old(self.serializer).text().push(self.end),
    {
        self.serializer.push(self.end);
    }
}

/// Writes the fields of a tuple variant, separated by spaces, then `)`.
pub struct TupleVariantSerializer<'a> {
    pub serializer: &'a mut Serializer,
    pub first: bool,
    pub end: char,
}

impl<'a> TupleVariantSerializer<'a> {
    /// Writes the separator before the next field.
    pub fn begin_field(&mut self)
        ensures
            *final(final(self).serializer) == *final(old(self).serializer),
            final(self).serializer.text() == old(self).serializer.text() + separator(old(self).first),
            !final(self).first,
            final(self).end == old(self).end,
    {
        self.serializer.separate(&mut self.first);
    }

    /// Writes the next field.
    pub fn serialize_field(&mut self, value: &Value) -> (r: Result<(), Error>)
        ensures
            *final(final(self).serializer) == *final(old(self).serializer),
            written(r, old(self).serializer.text(), final(self).serializer.text(), match write_value(value@) {
                Ok(t) => Ok(separator(old(self).first) + t),
                Err(m) => Err(m),
            }),
            !final(self).first,
            final(self).end == old(self).end,
    {
        self.serializer.separated_value(&mut self.first, value)
    }

    /// Writes the closing bracket.
    pub fn end(self)
        ensures
            final(self.serializer).text() == old(self.serializer).text().push(self.end),
    {
        self.serializer.push(self.end);
    }
}

/// Writes the entries of a map as key, space, value, separated by spaces,
/// then `}`.
pub struct MapSerializer<'a> {
    pub serializer: &'a mut Serializer,
    pub first: bool,
    pub end: char,
}

impl<'a> MapSerializer<'a> {
    /// Entries written into `serializer`, closed by `end`.
    pub fn new(serializer: &'a mut Serializer, end: char) -> (r: MapSerializer<'a>)
        ensures
            *r.serializer == *old(serializer),
            *final(r.serializer) == *final(serializer),
            r.first,
            r.end == end,
    {
        MapSerializer { serializer, first: true, end }
    }

    /// Writes the separator before the next key.
    pub fn begin_key(&mut self)
        ensures
            *final(final(self).serializer) == *final(old(self).serializer),
            final(self).serializer.text() == old(self).serializer.text() + separator(old(self).first),
            !final(self).first,
            final(self).end == old(self).end,
    {
        self.serializer.separate(&mut self.first);
    }

    /// Writes the next key.
    pub fn serialize_key(&mut self, key: &Value) -> (r: Result<(), Error>)
        ensures
            *final(final(self).serializer) == *final(old(self).serializer),
            written(r, old(self).serializer.text(), final(self).serializer.text(), match write_value(key@) {
                Ok(t) => Ok(separator(old(self).first) + t),
                Err(m) => Err(m),
            }),
            !final(self).first,
            final(self).end == old(self).end,
    {
        self.serializer.separated_value(&mut self.first, key)
    }

    /// Writes the space between a key and its value.
    pub fn begin_value(&mut self)
        ensures
            *final(final(self).serializer) == *final(old(self).serializer),
            final(self).serializer.text() == old(self).serializer.text().push(' '),
            final(self).first == old(self).first,
            final(self).end == old(self).end,
    {
        self.serializer.push(' ');
    }

    /// Writes the value of the last key.
    pub fn serialize_value(&mut self, value: &Value) -> (r: Result<(), Error>)
        ensures
            *final(final(self).serializer) == *final(old(self).serializer),
            written(r, old(self).serializer.text(), final(self).serializer.text(), match write_value(value@) {
                Ok(t) => Ok(seq![' '] + t),
                Err(m) => Err(m),
            }),
            final(self).first == old(self).first,
            final(self).end == old(self).end,
    {
        let mut no_separator = false;
        self.serializer.separated_value(&mut no_separator, value)
    }

    /// Writes the closing brace.
    pub fn end(self)
        ensures
            final(self.serializer).text() == old(self.serializer).text().push(self.end),
    {
        self.serializer.push(self.end);
    }
}

/// A struct field: `:name` and a space.
pub open spec fn field_head(key: Seq<char>) -> Seq<char> {
    seq![':'] + key + seq![' ']
}

impl Serializer {
    fn begin_field(&mut self, first: &mut bool, key: &str)
        ensures
            final(self).text() == old(self).text() + separator(*old(first)) + field_head(key@),
            !*final(first),
    {
        self.separate(first);
        self.push(':');
        self.push_lit(key);
        self.push(' ');
        assert(self.text() =~= old(self).text() + separator(*old(first)) + field_head(key@));
    }

    fn field_value(&mut self, first: &mut bool, key: &str, value: &Value) -> (r: Result<(), Error>)
        ensures
            !*final(first),
            written(r, old(self).text(), final(self).text(), match write_value(value@) {
                Ok(t) => Ok(separator(*old(first)) + field_head(key@) + t),
                Err(m) => Err(m),
            }),
    {
        let ghost start = self.text();
        self.begin_field(first, key);
        let ghost mid = self.text();
        proof {
            lemma_extends_add(start, separator(*old(first)) + field_head(key@));
            assert(mid =~= start + (separator(*old(first)) + field_head(key@)));
        }
        let r = self.serialize_value(value);
        proof {
            lemma_extends_trans(start, mid, self.text());
            match write_value(value@) {
                Ok(t) => { assert(self.text() =~= start + (separator(*old(first)) + field_head(key@) + t)); },
                Err(_) => {},
            }
        }
        r
    }
}

/// Writes the fields of a struct as `:name value`, separated by spaces,
/// then `}`.
pub struct StructSerializer<'a> {
    pub serializer: &'a mut Serializer,
    pub first: bool,
    pub end: char,
}

impl<'a> StructSerializer<'a> {
    /// Writes the separator and the name of the next field.
    pub fn begin_field(&mut self, key: &str)
        ensures
            *final(final(self).serializer) == *final(old(self).serializer),
            final(self).serializer.text() == old(self).serializer.text() + separator(old(self).first) + field_head(key@),
            !final(self).first,
            final(self).end == old(self).end,
    {
        self.serializer.begin_field(&mut self.first, key);
    }

    /// Writes the next field.
    pub fn serialize_field(&mut self, key: &str, value: &Value) -> (r: Result<(), Error>)
        ensures
            *final(final(self).serializer) == *final(old(self).serializer),
            written(r, old(self).serializer.text(), final(self).serializer.text(), match write_value(value@) {
                Ok(t) => Ok(separator(old(self).first) + field_head(key@) + t),
                Err(m) => Err(m),
            }),
            !final(self).first,
            final(self).end == old(self).end,
    {
        self.serializer.field_value(&mut self.first, key, value)
    }

    /// Writes the closing brace.
    pub fn end(self)
        ensures
            final(self.serializer).text() == old(self.serializer).text().push(self.end),
    {
        self.serializer.push(self.end);
    }
}

/// Writes the fields of a struct variant as `:name value`, separated by
/// spaces, then `}`.
pub struct StructVariantSerializer<'a> {
    pub serializer: &'a mut Serializer,
    pub first: bool,
    pub end: char,
}

impl<'a> StructVariantSerializer<'a> {
    /// Writes the separator and the name of the next field.
    pub fn begin_field(&mut self, key: &str)
        ensures
            *final(final(self).serializer) == *final(old(self).serializer),
            final(self).serializer.text() == old(self).serializer.text() + separator(old(self).first) + field_head(key@),
            !final(self).first,
            final(self).end == old(self).end,
    {
        self.serializer.begin_field(&mut self.first, key);
    }

    /// Writes the next field.
    pub fn serialize_field(&mut self, key: &str, value: &Value) -> (r: Result<(), Error>)
        ensures
            *final(final(self).serializer) == *final(old(self).serializer),
            written(r, old(self).serializer.text(), final(self).serializer.text(), match write_value(value@) {
                Ok(t) => Ok(separator(old(self).first) + field_head(key@) + t),
                Err(m) => Err(m),
            }),
            !final(self).first,
            final(self).end == old(self).end,
    {
        self.serializer.field_value(&mut self.first, key, value)
    }

    /// Writes the closing brace.
    pub fn end(self)
        ensures
            final(self.serializer).text() == old(self.serializer).text().push(self.end),
    {
        self.serializer.push(self.end);
    }
}

} // verus!

verus! {

/// A float written from its shortest decimal text: with `.0` added when the
/// text has neither a point nor an exponent.
pub open spec fn float_text(t: Seq<char>) -> Seq<char> {
    if t.contains('.') || t.contains('e') || t.contains('E') {
        t
    } else {
        t + ".0"@
    }
}

fn has_float_mark(t: &str) -> (r: bool)
    ensures
        r == (t@.contains('.') || t@.contains('e') || t@.contains('E')),
{
    let n = t.unicode_len();
    let mut i: usize = 0;
    while i < n
        invariant
            n == t@.len(),
            i <= n,
            forall|k: int| 0 <= k < i ==> t@[k] != '.' && t@[k] != 'e' && t@[k] != 'E',
        decreases n - i,
    {
        let c = t.get_char(i);
        if c == '.' || c == 'e' || c == 'E' {
            assert(t@.contains(c));
            return true;
        }
        i = i + 1;
    }
    false
}

impl Serializer {
    /// Writes a `u64` in decimal.
    pub fn serialize_u64(&mut self, v: u64)
        ensures
            final(self).text() == old(self).text() + int_text(v as int),
    {
        self.push_nat(v);
    }

    /// Writes the decimal text of a float: `.0` is added when it has neither
    /// a point nor an exponent.
    pub fn serialize_float_text(&mut self, text: &str)
        ensures
            final(self).text() == old(self).text() + float_text(text@),
    {
        proof { reveal_strlit(".0"); }
        if has_float_mark(text) {
            self.push_lit(text);
        } else {
            self.push_lit(text);
            self.push_lit(".0");
            assert(self.text() =~= old(self).text() + float_text(text@));
        }
    }

    /// Writes the name of a unit struct.
    pub fn serialize_unit_struct(&mut self, name: &str)
        ensures
            final(self).text() == old(self).text() + name@,
    {
        self.push_lit(name);
    }

    /// Writes a unit variant as `Name/Variant`.
    pub fn serialize_unit_variant(&mut self, name: &str, variant: &str)
        ensures
            final(self).text() == old(self).text() + name@ + seq!['/'] + variant@,
    {
        self.push_lit(name);
        self.push('/');
        self.push_lit(variant);
        assert(self.text() =~= old(self).text() + name@ + seq!['/'] + variant@);
    }

    /// Writes the head of a newtype struct, `Name` and a space; its value
    /// follows.
    pub fn serialize_newtype_struct(&mut self, name: &str)
        ensures
            final(self).text() == old(self).text() + name@ + seq![' '],
    {
        self.push_lit(name);
        self.push(' ');
        assert(self.text() =~= old(self).text() + name@ + seq![' ']);
    }

    /// Writes the head of a newtype variant, `Name/Variant` and a space; its
    /// value follows.
    pub fn serialize_newtype_variant(&mut self, name: &str, variant: &str)
        ensures
            final(self).text() == old(self).text() + name@ + seq!['/'] + variant@ + seq![' '],
    {
        self.serialize_unit_variant(name, variant);
        self.push(' ');
        assert(self.text() =~= old(self).text() + name@ + seq!['/'] + variant@ + seq![' ']);
    }

    /// Opens a sequence with `[`.
    pub fn serialize_seq<'a>(&'a mut self) -> (r: SeqSerializer<'a>)
        ensures
            r.serializer.text() == old(self).text().push('['),
            *final(r.serializer) == *final(self),
            r.first,
            r.end == ']',
    {
        self.push('[');
        SeqSerializer::new(self, ']')
    }

    /// Opens a collection with `open`; its items are closed by `end`.
    pub fn open_seq<'a>(&'a mut self, open: &str, end: char) -> (r: SeqSerializer<'a>)
        ensures
            r.serializer.text() == old(self).text() + open@,
            *final(r.serializer) == *final(self),
            r.first,
            r.end == end,
    {
        self.push_lit(open);
        SeqSerializer::new(self, end)
    }

    /// Opens a tuple struct as `Name [`.
    pub fn serialize_tuple_struct<'a>(&'a mut self, name: &str) -> (r: SeqSerializer<'a>)
        ensures
            r.serializer.text() == old(self).text() + name@ + seq![' ', '['],
            *final(r.serializer) == *final(self),
            r.first,
            r.end == ']',
    {
        self.push_lit(name);
        self.push(' ');
        self.push('[');
        assert(self.text() =~= old(self).text() + name@ + seq![' ', '[']);
        SeqSerializer::new(self, ']')
    }

    /// Opens a tuple variant as `(Name/Variant `.
    pub fn serialize_tuple_variant<'a>(&'a mut self, name: &str, variant: &str) -> (r: TupleVariantSerializer<'a>)
        ensures
            r.serializer.text() == old(self).text() + seq!['('] + name@ + seq!['/'] + variant@ + seq![' '],
            *final(r.serializer) == *final(self),
            r.first,
            r.end == ')',
    {
        self.push('(');
        self.serialize_newtype_variant(name, variant);
        assert(self.text() =~= old(self).text() + seq!['('] + name@ + seq!['/'] + variant@ + seq![' ']);
        TupleVariantSerializer { serializer: self, first: true, end: ')' }
    }

    /// Opens a map with `{`.
    pub fn serialize_map<'a>(&'a mut self) -> (r: MapSerializer<'a>)
        ensures
            r.serializer.text() == old(self).text().push('{'),
            *final(r.serializer) == *final(self),
            r.first,
            r.end == '}',
    {
        self.push('{');
        MapSerializer::new(self, '}')
    }

    /// Opens a struct as `Name {`.
    pub fn serialize_struct<'a>(&'a mut self, name: &str) -> (r: StructSerializer<'a>)
        ensures
            r.serializer.text() == old(self).text() + name@ + seq![' ', '{'],
            *final(r.serializer) == *final(self),
            r.first,
            r.end == '}',
    {
        self.push_lit(name);
        self.push(' ');
        self.push('{');
        assert(self.text() =~= old(self).text() + name@ + seq![' ', '{']);
        StructSerializer { serializer: self, first: true, end: '}' }
    }

    /// Opens a struct variant as `Name/Variant {`.
    pub fn serialize_struct_variant<'a>(&'a mut self, name: &str, variant: &str) -> (r: StructVariantSerializer<'a>)
        ensures
            r.serializer.text() == old(self).text() + name@ + seq!['/'] + variant@ + seq![' ', '{'],
            *final(r.serializer) == *final(self),
            r.first,
            r.end == '}',
    {
        self.serialize_newtype_variant(name, variant);
        self.push('{');
        assert(self.text() =~= old(self).text() + name@ + seq!['/'] + variant@ + seq![' ', '{']);
        StructVariantSerializer { serializer: self, first: true, end: '}' }
    }
}

} // verus!

verus! {

impl Default for Serializer {
    fn default() -> (r: Serializer)
        ensures
            r.text() == Seq::<char>::empty(),
    {
        Serializer::new()
    }
}

impl Value {
    /// The EDN text of the value, or a placeholder when it cannot be
    /// written.
    pub fn display(&self) -> (r: String)
        ensures
            r@ == match write_value(self@) {
                Ok(t) => t,
                Err(_) => "Value(/* serialization error */)"@,
            },
    {
        match to_string(self) {
            Ok(s) => s,
            Err(_) => string_of("Value(/* serialization error */)"),
        }
    }
}

} // verus!
