use vstd::prelude::*;

use crate::err::MalformedFormat;
use crate::object::Object;
use crate::object::mm::{Cell, OutOfMemory, cell_refs};
use crate::value::{Ref, ref_index};
use crate::value::any::Val;
use crate::value::array::Array;
use crate::value::bool::Bool;
use crate::value::keyword::Keyword;
use crate::value::list::{List, ListBuilder, all_valid, list_val, values_of};
use crate::value::number::make_integer;
use crate::value::string::NString;
use crate::value::symbol::Symbol;
use crate::value::syntax::SyntaxId;
use crate::value::tuple::{Tuple, tuple_val};

verus! {

/// Why reading stopped.
#[derive(Debug)]
pub enum ReadException {
    EOF,
    OutOfMemory,
    MalformedFormat(MalformedFormat),
}

/// `c` separates words and is skipped between expressions.
pub open spec fn spec_is_whitespace(c: char) -> bool {
    c == '\u{0020}' || c == '\u{0009}' || c == '\u{000A}' || c == '\u{000D}' || c == '\u{000B}' || c
        == '\u{000C}' || c == '\u{0085}' || c == '\u{200E}' || c == '\u{200F}' || c == '\u{2028}' || c
        == '\u{2029}'
}

/// `c` ends a word.
pub open spec fn spec_is_delimiter(c: char) -> bool {
    spec_is_whitespace(c) || c == '"' || c == '\'' || c == '(' || c == ')' || c == '[' || c == ']' || c == '{'
        || c == '}'
}

/// `c` separates words and is skipped between expressions.
pub fn is_whitespace(c: char) -> (res: bool)
    ensures
        res == spec_is_whitespace(c),
{
    c == '\u{0020}' || c == '\u{0009}' || c == '\u{000A}' || c == '\u{000D}' || c == '\u{000B}' || c
        == '\u{000C}' || c == '\u{0085}' || c == '\u{200E}' || c == '\u{200F}' || c == '\u{2028}' || c
        == '\u{2029}'
}

/// `c` ends a word.
pub fn is_delimiter(c: char) -> (res: bool)
    ensures
        res == spec_is_delimiter(c),
{
    is_whitespace(c) || c == '"' || c == '\'' || c == '(' || c == ')' || c == '[' || c == ']' || c == '{'
        || c == '}'
}

/// `c` is an ASCII decimal digit.
pub open spec fn spec_is_digit(c: char) -> bool {
    '0' <= c <= '9'
}

/// The value of the ASCII decimal digit `c`.
pub open spec fn digit_value(c: char) -> int {
    (c as u32) - ('0' as u32)
}

/// The value of the digits `s`, read in base ten.
pub open spec fn digits_value(s: Seq<char>) -> int
    decreases s.len(),
{
    if s.len() == 0 {
        0
    } else {
        digits_value(s.drop_last()) * 10 + digit_value(s.last())
    }
}

/// Every character of `s` is a decimal digit.
pub open spec fn all_digits(s: Seq<char>) -> bool {
    forall|i: int| 0 <= i < s.len() ==> spec_is_digit(#[trigger] s[i])
}

/// The integer the word `w` writes: an optional sign and at least one
/// digit, as Rust's integer parsing reads it.
pub open spec fn int_literal(w: Seq<char>) -> Option<int> {
    if w.len() > 0 && (w[0] == '+' || w[0] == '-') {
        let d = w.skip(1);
        if d.len() > 0 && all_digits(d) {
            Some(if w[0] == '-' { -digits_value(d) } else { digits_value(d) })
        } else {
            None
        }
    } else if w.len() > 0 && all_digits(w) {
        Some(digits_value(w))
    } else {
        None
    }
}

/// Reads the word `w` as a 64-bit integer, as Rust's integer parsing does:
/// `None` when it is not an integer or does not fit.
pub fn parse_i64(w: &Vec<char>) -> (res: Option<i64>)
    ensures
        match res {
            Some(n) => int_literal(w@) == Some(n as int),
            None => int_literal(w@) is None || !(i64::MIN <= int_literal(w@)->0 <= i64::MAX),
        },
{
    let len = w.len();
    if len == 0 {
        return None;
    }
    let neg = w[0] == '-';
    let start: usize = if w[0] == '+' || w[0] == '-' { 1 } else { 0 };
    if start == len {
        return None;
    }
    let ghost d = w@.skip(start as int);
    proof {
        assert(w@.skip(0) =~= w@);
        assert(start == 0 ==> !is_sign(w@[0]));
    }
    let mut acc: i64 = 0;
    let mut i = start;
    while i < len
        invariant
            start <= i <= len,
            start < len,
            len == w@.len(),
            d == w@.skip(start as int),
            start == 0 ==> d == w@,
            start == 0 || start == 1,
            start == 1 <==> is_sign(w@[0]),
            all_digits(w@.subrange(start as int, i as int)),
            neg ==> acc == -digits_value(w@.subrange(start as int, i as int)),
            !neg ==> acc == digits_value(w@.subrange(start as int, i as int)),
            neg == (w@[0] == '-'),
        decreases len - i,
    {
        let c = w[i];
        let ghost p = w@.subrange(start as int, i + 1);
        proof {
            assert(p.drop_last() =~= w@.subrange(start as int, i as int));
            assert(d.subrange(0, p.len() as int) =~= p);
            assert(d[i - start] == c);
        }
        if !('0' <= c && c <= '9') {
            proof {
                assert(!all_digits(d));
            }
            return None;
        }
        let dv = (c as u32 - '0' as u32) as i64;
        proof {
            assert(all_digits(p)) by {
                assert forall|j: int| 0 <= j < p.len() implies spec_is_digit(#[trigger] p[j]) by {
                    if j < p.len() - 1 {
                        assert(p[j] == w@.subrange(start as int, i as int)[j]);
                    }
                }
            }
            assert(digits_value(p) == digits_value(w@.subrange(start as int, i as int)) * 10 + dv);
            lemma_digits_grow(p, d);
        }
        let m = match acc.checked_mul(10) {
            Some(m) => m,
            None => {
                proof {
                    lemma_digits_nonneg(w@.subrange(start as int, i as int));
                    if all_digits(d) {
                        if neg {
                            assert(-digits_value(d) < i64::MIN);
                        } else {
                            assert(digits_value(d) > i64::MAX);
                        }
                    }
                }
                return None;
            },
        };
        let next = if neg { m.checked_sub(dv) } else { m.checked_add(dv) };
        match next {
            Some(n) => {
                acc = n;
            },
            None => {
                proof {
                    lemma_digits_nonneg(w@.subrange(start as int, i as int));
                    if all_digits(d) {
                        if neg {
                            assert(-digits_value(d) < i64::MIN);
                        } else {
                            assert(digits_value(d) > i64::MAX);
                        }
                    }
                }
                return None;
            },
        }
        i = i + 1;
    }
    proof {
        assert(w@.subrange(start as int, len as int) =~= d);
    }
    Some(acc)
}

/// A digit string is worth at least each of its prefixes.
proof fn lemma_digits_grow(p: Seq<char>, d: Seq<char>)
    requires
        p.len() <= d.len(),
        d.subrange(0, p.len() as int) == p,
        all_digits(p),
    ensures
        all_digits(d) ==> digits_value(p) <= digits_value(d),
    decreases d.len(),
{
    if all_digits(d) {
        if p.len() < d.len() {
            let t = d.drop_last();
            assert(t.subrange(0, p.len() as int) =~= d.subrange(0, p.len() as int));
            assert(all_digits(t)) by {
                assert forall|j: int| 0 <= j < t.len() implies spec_is_digit(#[trigger] t[j]) by {
                    assert(t[j] == d[j]);
                }
            }
            lemma_digits_grow(p, t);
            assert(spec_is_digit(d.last()));
            lemma_digits_nonneg(t);
        } else {
            assert(p =~= d);
        }
    }
}

/// A digit string is worth at least nothing.
proof fn lemma_digits_nonneg(s: Seq<char>)
    requires
        all_digits(s),
    ensures
        digits_value(s) >= 0,
    decreases s.len(),
{
    if s.len() > 0 {
        let t = s.drop_last();
        assert(all_digits(t)) by {
            assert forall|j: int| 0 <= j < t.len() implies spec_is_digit(#[trigger] t[j]) by {
                assert(t[j] == s[j]);
            }
        }
        lemma_digits_nonneg(t);
        assert(spec_is_digit(s.last()));
    }
}

/// The number of digits of `s` from `i` on, up to the first other character.
pub open spec fn digits_run(s: Seq<char>, i: int) -> nat
    decreases s.len() - i,
{
    if 0 <= i < s.len() && spec_is_digit(s[i]) {
        1 + digits_run(s, i + 1)
    } else {
        0
    }
}

/// `c` is a sign.
pub open spec fn is_sign(c: char) -> bool {
    c == '+' || c == '-'
}

/// The ASCII lower case of `c`.
pub open spec fn lower(c: char) -> char {
    if 'A' <= c <= 'Z' {
        ((c as u32) + 32) as char
    } else {
        c
    }
}

/// `t` from `k` on is an exponent (or nothing).
pub open spec fn exponent_from(t: Seq<char>, k: int) -> bool {
    k == t.len() || (k < t.len() && (t[k] == 'e' || t[k] == 'E') && {
        let m = if k + 1 < t.len() && is_sign(t[k + 1]) {
            k + 2
        } else {
            k + 1
        };
        digits_run(t, m) > 0 && m + digits_run(t, m) == t.len()
    })
}

/// `t` is a decimal number: digits with an optional fraction, at least one
/// digit in all, and an optional exponent.
pub open spec fn decimal_number(t: Seq<char>) -> bool {
    let a = digits_run(t, 0) as int;
    if a < t.len() && t[a] == '.' {
        let b = digits_run(t, a + 1) as int;
        a + b > 0 && exponent_from(t, a + 1 + b)
    } else {
        a > 0 && exponent_from(t, a)
    }
}

/// `t` names infinity or not-a-number, in any case.
pub open spec fn special_number(t: Seq<char>) -> bool {
    ||| (t.len() == 3 && lower(t[0]) == 'i' && lower(t[1]) == 'n' && lower(t[2]) == 'f')
    ||| (t.len() == 8 && lower(t[0]) == 'i' && lower(t[1]) == 'n' && lower(t[2]) == 'f' && lower(t[3]) == 'i'
        && lower(t[4]) == 'n' && lower(t[5]) == 'i' && lower(t[6]) == 't' && lower(t[7]) == 'y')
    ||| (t.len() == 3 && lower(t[0]) == 'n' && lower(t[1]) == 'a' && lower(t[2]) == 'n')
}

/// The word `w` writes a floating-point number, as Rust's parsing of `f64`
/// reads it: an optional sign, then a decimal number or a special name.
pub open spec fn float_literal(w: Seq<char>) -> bool {
    let t = if w.len() > 0 && is_sign(w[0]) {
        w.skip(1)
    } else {
        w
    };
    decimal_number(t) || special_number(t)
}

/// The number of digits of `s` from `i` on.
fn count_digits(s: &Vec<char>, i: usize) -> (n: usize)
    ensures
        n == digits_run(s@, i as int),
        i + n <= s@.len() || n == 0,
    decreases s@.len() - i,
{
    if i < s.len() && '0' <= s[i] && s[i] <= '9' {
        1 + count_digits(s, i + 1)
    } else {
        0
    }
}

/// The ASCII lower case of `c`.
fn to_lower(c: char) -> (r: char)
    ensures
        r == lower(c),
{
    if 'A' <= c && c <= 'Z' {
        let n: u32 = c as u32 + 32;
        proof {
            assert(n <= 0x5a + 32);
        }
        char_from_ascii(n)
    } else {
        c
    }
}

/// The ASCII character with code `n`.
fn char_from_ascii(n: u32) -> (c: char)
    requires
        n < 128,
    ensures
        c == n as char,
{
    let b: u8 = n as u8;
    b as char
}

/// `s` from `k` on is an exponent (or nothing).
fn exponent_at(s: &Vec<char>, k: usize) -> (res: bool)
    requires
        k <= s@.len(),
    ensures
        res == exponent_from(s@, k as int),
{
    if k == s.len() {
        return true;
    }
    if !(s[k] == 'e' || s[k] == 'E') {
        return false;
    }
    let m = if k + 1 < s.len() && (s[k + 1] == '+' || s[k + 1] == '-') {
        k + 2
    } else {
        k + 1
    };
    let d = count_digits(s, m);
    d > 0 && m + d == s.len()
}

/// The characters of `w` from `from` on.
fn tail_chars(w: &Vec<char>, from: usize) -> (res: Vec<char>)
    requires
        from <= w@.len(),
    ensures
        res@ == w@.skip(from as int),
{
    let mut res: Vec<char> = Vec::new();
    let mut i = from;
    while i < w.len()
        invariant
            from <= i <= w@.len(),
            res@ == w@.subrange(from as int, i as int),
        decreases w@.len() - i,
    {
        res.push(w[i]);
        proof {
            assert(res@ =~= w@.subrange(from as int, i + 1));
        }
        i = i + 1;
    }
    proof {
        assert(w@.subrange(from as int, w@.len() as int) =~= w@.skip(from as int));
    }
    res
}

/// The word `w` writes a floating-point number.
pub fn is_float_literal(w: &Vec<char>) -> (res: bool)
    ensures
        res == float_literal(w@),
{
    let t = if w.len() > 0 && (w[0] == '+' || w[0] == '-') {
        tail_chars(w, 1)
    } else {
        tail_chars(w, 0)
    };
    proof {
        assert(w@.skip(0) =~= w@);
    }
    let a = count_digits(&t, 0);
    let num = if a < t.len() && t[a] == '.' {
        let b = count_digits(&t, a + 1);
        a + b > 0 && exponent_at(&t, a + 1 + b)
    } else {
        a > 0 && exponent_at(&t, a)
    };
    if num {
        return true;
    }
    let n = t.len();
    if n == 3 {
        let c0 = to_lower(t[0]);
        let c1 = to_lower(t[1]);
        let c2 = to_lower(t[2]);
        (c0 == 'i' && c1 == 'n' && c2 == 'f') || (c0 == 'n' && c1 == 'a' && c2 == 'n')
    } else if n == 8 {
        to_lower(t[0]) == 'i' && to_lower(t[1]) == 'n' && to_lower(t[2]) == 'f' && to_lower(t[3]) == 'i'
            && to_lower(t[4]) == 'n' && to_lower(t[5]) == 'i' && to_lower(t[6]) == 't' && to_lower(t[7]) == 'y'
    } else {
        false
    }
}


/// Reads expressions from a text, one after the other.
pub struct Reader {
    input: Vec<char>,
    pos: usize,
}

impl Reader {
    /// The text being read.
    pub closed spec fn text(&self) -> Seq<char> {
        self.input@
    }

    /// How many characters have been read.
    pub closed spec fn position(&self) -> int {
        self.pos as int
    }

    /// The position is within the text.
    pub closed spec fn wf(&self) -> bool {
        self.pos <= self.input@.len()
    }

    /// A reader at the start of `input`.
    pub fn new(input: Vec<char>) -> (r: Self)
        ensures
            r.wf(),
            r.text() == input@,
            r.position() == 0,
    {
        Reader { input, pos: 0 }
    }

    /// A reader at the start of the text `s`.
    pub fn from_str(s: &str) -> (r: Self)
        ensures
            r.wf(),
            r.text() == s@,
            r.position() == 0,
    {
        Reader { input: crate::value::string::str_to_chars(s), pos: 0 }
    }

    /// How many characters have been read.
    pub fn pos(&self) -> (n: usize)
        ensures
            n == self.position(),
    {
        self.pos
    }

    /// The next character, if any.
    pub fn peek(&self) -> (c: Option<char>)
        requires
            self.wf(),
        ensures
            self.position() < self.text().len() ==> c == Some(self.text()[self.position()]),
            self.position() >= self.text().len() ==> c is None,
    {
        if self.pos < self.input.len() {
            Some(self.input[self.pos])
        } else {
            None
        }
    }

    /// Moves past the next character.
    fn advance(&mut self)
        requires
            old(self).wf(),
            old(self).position() < old(self).text().len(),
        ensures
            final(self).wf(),
            final(self).text() == old(self).text(),
            final(self).position() == old(self).position() + 1,
    {
        let n = self.input.len();
        if self.pos < n {
            self.pos = self.pos + 1;
        }
    }
}

/// The first position from `i` on whose character is not whitespace (the
/// end of the text when there is none).
pub open spec fn skip_ws(t: Seq<char>, i: int) -> int
    decreases t.len() - i,
{
    if i < t.len() && spec_is_whitespace(t[i]) {
        skip_ws(t, i + 1)
    } else {
        i
    }
}

/// The first position from `i` on whose character ends a word (the end of
/// the text when there is none).
pub open spec fn word_end(t: Seq<char>, i: int) -> int
    decreases t.len() - i,
{
    if i < t.len() && !spec_is_delimiter(t[i]) {
        word_end(t, i + 1)
    } else {
        i
    }
}

/// The first position from `i` on holding a double quote (the end of the
/// text when there is none).
pub open spec fn quote_end(t: Seq<char>, i: int) -> int
    decreases t.len() - i,
{
    if i < t.len() && t[i] != '"' {
        quote_end(t, i + 1)
    } else {
        i
    }
}

/// Skipping whitespace never moves back.
pub proof fn lemma_skip_ws(t: Seq<char>, i: int)
    ensures
        skip_ws(t, i) >= i,
        i <= t.len() ==> skip_ws(t, i) <= t.len(),
        forall|k: int| i <= k < skip_ws(t, i) ==> spec_is_whitespace(#[trigger] t[k]),
        skip_ws(t, i) < t.len() ==> !spec_is_whitespace(t[skip_ws(t, i)]),
    decreases t.len() - i,
{
    if i < t.len() && spec_is_whitespace(t[i]) {
        lemma_skip_ws(t, i + 1);
    }
}

/// A word never ends before it starts.
pub proof fn lemma_word_end(t: Seq<char>, i: int)
    ensures
        word_end(t, i) >= i,
        i <= t.len() ==> word_end(t, i) <= t.len(),
        forall|k: int| i <= k < word_end(t, i) ==> !spec_is_delimiter(#[trigger] t[k]),
        word_end(t, i) < t.len() ==> spec_is_delimiter(t[word_end(t, i)]),
    decreases t.len() - i,
{
    if i < t.len() && !spec_is_delimiter(t[i]) {
        lemma_word_end(t, i + 1);
    }
}

/// A string's closing quote never comes before its start.
pub proof fn lemma_quote_end(t: Seq<char>, i: int)
    ensures
        quote_end(t, i) >= i,
        i <= t.len() ==> quote_end(t, i) <= t.len(),
        forall|k: int| i <= k < quote_end(t, i) ==> #[trigger] t[k] != '"',
        quote_end(t, i) < t.len() ==> t[quote_end(t, i)] == '"',
    decreases t.len() - i,
{
    if i < t.len() && t[i] != '"' {
        lemma_quote_end(t, i + 1);
    }
}

/// What reading one expression of a text finds: its value and the position
/// after it, the end of the text, or a malformed text.
pub enum Parsed {
    Datum(Val, int),
    End,
    Malformed,
}

/// The list, array or tuple of the values `items`.
pub open spec fn seq_value(kind: SeqKind, items: Seq<Val>) -> Val {
    match kind {
        SeqKind::List => list_val(items),
        SeqKind::Array => Val::Array(items),
        SeqKind::Tuple => tuple_val(items),
    }
}

/// The list of the syntax `s` and the expression read as `p`.
pub open spec fn modified(s: SyntaxId, p: Parsed) -> Parsed {
    match p {
        Parsed::Datum(v, e) => Parsed::Datum(
            Val::Pair(Box::new(Val::Syntax(s)), Box::new(Val::Pair(Box::new(v), Box::new(Val::Nil)))),
            e,
        ),
        other => other,
    }
}

/// The expression written in the text `t` from position `p` on, after
/// whitespace: a list, array or tuple between brackets; a string between
/// double quotes; a quoted (') or bound (@) expression; a number (or, when
/// the word is no number, a symbol) for a word starting with a sign or a
/// digit; a keyword for a colon and a word; else the symbol, or `true` or
/// `false`, a word names.
pub open spec fn parse_datum(t: Seq<char>, p: int) -> Parsed
    decreases t.len() - p, 0nat,
{
    let q = skip_ws(t, p);
    if q >= t.len() {
        Parsed::End
    } else {
        proof {
            lemma_skip_ws(t, p);
        }
        let c = t[q];
        if c == '(' {
            parse_seq(t, q + 1, SeqKind::List, ')', Seq::empty())
        } else if c == '[' {
            parse_seq(t, q + 1, SeqKind::Array, ']', Seq::empty())
        } else if c == '{' {
            parse_seq(t, q + 1, SeqKind::Tuple, '}', Seq::empty())
        } else if c == ')' || c == ']' || c == '}' {
            Parsed::Malformed
        } else if c == '"' {
            let e = quote_end(t, q + 1);
            if e < t.len() {
                Parsed::Datum(Val::Str(t.subrange(q + 1, e)), e + 1)
            } else {
                Parsed::Malformed
            }
        } else if c == '\'' {
            modified(SyntaxId::Quote, parse_datum(t, q + 1))
        } else if c == '@' {
            modified(SyntaxId::Bind, parse_datum(t, q + 1))
        } else if c == '+' || c == '-' || ('0' <= c && c <= '9') {
            let e = word_end(t, q);
            Parsed::Datum(number_or_symbol_val(t.subrange(q, e)), e)
        } else if c == ':' {
            if q + 1 < t.len() {
                let e = word_end(t, q + 1);
                Parsed::Datum(Val::Kw(t.subrange(q + 1, e)), e)
            } else {
                Parsed::Malformed
            }
        } else {
            let e = word_end(t, q);
            Parsed::Datum(symbol_val(t.subrange(q, e)), e)
        }
    }
}

/// The rest of a list, array or tuple from position `p` on, up to the
/// character `end`, after the values `items` already read.
pub open spec fn parse_seq(t: Seq<char>, p: int, kind: SeqKind, end: char, items: Seq<Val>) -> Parsed
    decreases t.len() - p, 1nat,
{
    let q = skip_ws(t, p);
    if q >= t.len() {
        Parsed::Malformed
    } else if t[q] == end {
        Parsed::Datum(seq_value(kind, items), q + 1)
    } else {
        proof {
            lemma_skip_ws(t, p);
        }
        match parse_datum(t, q) {
            Parsed::Datum(v, e) => if q < e <= t.len() {
                parse_seq(t, e, kind, end, items.push(v))
            } else {
                Parsed::Malformed
            },
            other => other,
        }
    }
}

/// The value `v`, once read, is kept in at least one heap cell: it is no
/// integer of the immediate range, no boolean, no empty list and no unit.
pub open spec fn needs_cell(v: Val) -> bool {
    match v {
        Val::Int(n) => !crate::value::number::spec_is_fixnum_range(n),
        Val::True | Val::False | Val::Nil | Val::Unit => false,
        _ => true,
    }
}

/// A reading that ended with `res`, the reader at `r1` and the object `o1`,
/// agrees with what the text holds, `p`: the value and the position after it
/// (unless memory ran out, which happens only to a value kept in a cell), or
/// an error of the same kind (or memory that ran out first).
pub open spec fn read_agrees(p: Parsed, r1: &Reader, o1: &Object, res: Result<Ref, ReadException>) -> bool {
    match p {
        Parsed::Datum(v, e) => match res {
            Ok(r) => o1.value_of(r) == v && r1.position() == e,
            Err(x) => x is OutOfMemory && needs_cell(v),
        },
        Parsed::End => res is Err && (res->Err_0 is EOF || res->Err_0 is OutOfMemory),
        Parsed::Malformed => res is Err && (res->Err_0 is MalformedFormat || res->Err_0 is OutOfMemory),
    }
}

/// The first position from `p` on that holds no whitespace is `f`, when
/// everything from `p` up to `f` is whitespace and `f` is not.
proof fn lemma_skip_ws_at(t: Seq<char>, p: int, f: int)
    requires
        p <= f <= t.len(),
        forall|k: int| p <= k < f ==> spec_is_whitespace(#[trigger] t[k]),
        f < t.len() ==> !spec_is_whitespace(t[f]),
    ensures
        skip_ws(t, p) == f,
    decreases f - p,
{
    if p < f {
        lemma_skip_ws_at(t, p + 1, f);
    }
}

/// A closing bracket where an expression should start is refused: the
/// error names no expression, and the bracket is left unread.
pub open spec fn close_refused(r0: &Reader, r1: &Reader, res: Result<Ref, ReadException>) -> bool {
    let t = r0.text();
    let q = skip_ws(t, r0.position());
    q < t.len() && (t[q] == ')' || t[q] == ']' || t[q] == '}') ==> (res matches Err(
        ReadException::MalformedFormat(m),
    ) && m.related_exp is None) && r1.position() == q
}

/// A list, array or tuple that already holds a value is kept in a cell.
proof fn lemma_seq_needs_cell(t: Seq<char>, p: int, kind: SeqKind, end: char, items: Seq<Val>)
    requires
        items.len() > 0,
    ensures
        parse_seq(t, p, kind, end, items) matches Parsed::Datum(v, _) ==> needs_cell(v),
    decreases t.len() - p,
{
    let q = skip_ws(t, p);
    if q >= t.len() {
    } else if t[q] == end {
        assert(items =~= seq![items[0]] + items.skip(1));
        crate::value::list::lemma_list_val(items);
    } else {
        lemma_skip_ws(t, p);
        match parse_datum(t, q) {
            Parsed::Datum(v, e) => {
                if q < e <= t.len() {
                    lemma_seq_needs_cell(t, e, kind, end, items.push(v));
                }
            },
            _ => {},
        }
    }
}

/// What every reading step keeps: the text, a position that only moves
/// forward, a well-formed object that only grows, and a valid result that
/// was read from at least one character.
pub open spec fn read_post(
    r0: &Reader,
    r1: &Reader,
    o0: &Object,
    o1: &Object,
    res: Result<Ref, ReadException>,
) -> bool {
    &&& r1.wf()
    &&& r1.text() == r0.text()
    &&& r1.position() >= r0.position()
    &&& o1.wf()
    &&& o1.grown_from(o0)
    &&& res matches Ok(v) ==> o1.valid(v) && r1.position() > r0.position()
    &&& res matches Err(ReadException::EOF) ==> r1.position() == r1.text().len()
}

/// Skips the whitespace at the reader's position.
fn skip_whitespace(reader: &mut Reader)
    requires
        old(reader).wf(),
    ensures
        final(reader).wf(),
        final(reader).text() == old(reader).text(),
        final(reader).position() >= old(reader).position(),
        forall|i: int|
            old(reader).position() <= i < final(reader).position() ==> spec_is_whitespace(#[trigger] final(reader).text()[i]),
        final(reader).position() < final(reader).text().len() ==> !spec_is_whitespace(
            final(reader).text()[final(reader).position()],
        ),
        final(reader).position() == skip_ws(old(reader).text(), old(reader).position()),
{
    while reader.pos < reader.input.len() && is_whitespace(reader.input[reader.pos])
        invariant
            reader.wf(),
            reader.text() == old(reader).text(),
            reader.position() >= old(reader).position(),
            skip_ws(reader.text(), reader.position()) == skip_ws(old(reader).text(), old(reader).position()),
            forall|i: int| old(reader).position() <= i < reader.position() ==> spec_is_whitespace(#[trigger] reader.text()[i]),
        decreases reader.input@.len() - reader.pos,
    {
        reader.pos = reader.pos + 1;
    }
}

/// Reads the characters up to the next delimiter or the end. It fails only
/// when the text ends before any character.
fn read_word(reader: &mut Reader) -> (res: Result<Vec<char>, ReadException>)
    requires
        old(reader).wf(),
    ensures
        final(reader).wf(),
        final(reader).text() == old(reader).text(),
        final(reader).position() >= old(reader).position(),
        res is Err <==> old(reader).position() == old(reader).text().len(),
        res is Err ==> final(reader).position() == old(reader).position() && res->Err_0 is MalformedFormat,
        res matches Ok(w) ==> {
            &&& w@ == old(reader).text().subrange(old(reader).position(), final(reader).position())
            &&& forall|i: int| 0 <= i < w@.len() ==> !spec_is_delimiter(#[trigger] w@[i])
            &&& final(reader).position() < final(reader).text().len() ==> spec_is_delimiter(
                final(reader).text()[final(reader).position()],
            )
            &&& final(reader).position() == word_end(old(reader).text(), old(reader).position())
        },
{
    if reader.pos == reader.input.len() {
        return Err(ReadException::MalformedFormat(MalformedFormat::new(None, "no word")));
    }
    let start = reader.pos;
    let mut acc: Vec<char> = Vec::new();
    while reader.pos < reader.input.len() && !is_delimiter(reader.input[reader.pos])
        invariant
            reader.wf(),
            reader.text() == old(reader).text(),
            start == old(reader).position(),
            start <= reader.position(),
            acc@ == reader.text().subrange(start as int, reader.position()),
            forall|i: int| 0 <= i < acc@.len() ==> !spec_is_delimiter(#[trigger] acc@[i]),
            word_end(reader.text(), reader.position()) == word_end(old(reader).text(), old(reader).position()),
        decreases reader.input@.len() - reader.pos,
    {
        acc.push(reader.input[reader.pos]);
        reader.pos = reader.pos + 1;
        proof {
            assert(acc@ =~= reader.text().subrange(start as int, reader.position()));
        }
    }
    Ok(acc)
}

/// Reads a string: the characters up to the closing double quote.
fn read_string(reader: &mut Reader, obj: &mut Object) -> (res: Result<Ref, ReadException>)
    requires
        old(reader).wf(),
        old(obj).wf(),
        old(reader).position() < old(reader).text().len(),
    ensures
        read_post(old(reader), final(reader), old(obj), final(obj), res),
        res matches Ok(v) ==> final(obj).value_of(v) == Val::Str(
            old(reader).text().subrange(old(reader).position() + 1, final(reader).position() - 1),
        ) && final(reader).text()[final(reader).position() - 1] == '"',
        ({
            let t = old(reader).text();
            let e = quote_end(t, old(reader).position() + 1);
            if e < t.len() {
                match res {
                    Ok(r) => final(obj).value_of(r) == Val::Str(t.subrange(old(reader).position() + 1, e))
                        && final(reader).position() == e + 1,
                    Err(x) => x is OutOfMemory,
                }
            } else {
                res is Err && res->Err_0 is MalformedFormat
            }
        }),
{
    let ghost p0 = reader.pos;
    reader.advance();
    let mut acc: Vec<char> = Vec::new();
    proof {
        obj.lemma_grown_refl();
    }
    loop
        invariant
            reader.wf(),
            reader.text() == old(reader).text(),
            reader.position() > p0,
            p0 == old(reader).position(),
            acc@ == reader.text().subrange(p0 + 1, reader.position()),
            quote_end(reader.text(), reader.position()) == quote_end(reader.text(), p0 + 1),
            obj.wf(),
            obj.grown_from(old(obj)),
        decreases reader.text().len() - reader.position(),
    {
        match reader.peek() {
            None => {
                return Err(ReadException::MalformedFormat(MalformedFormat::new(None, "EOF before the string ended")));
            },
            Some(c) => {
                reader.advance();
                if c == '"' {
                    let ghost o1 = *obj;
                    let res = NString::allocate(obj, &acc);
                    proof {
                        obj.lemma_grown_trans(&o1, old(obj));
                    }
                    return match res {
                        Ok(r) => Ok(r),
                        Err(_) => Err(ReadException::OutOfMemory),
                    };
                }
                acc.push(c);
                proof {
                    assert(acc@ =~= reader.text().subrange(p0 + 1, reader.position()));
                }
            },
        }
    }
}

/// The symbol, or the boolean `true` or `false`, the word `w` names.
pub open spec fn symbol_val(w: Seq<char>) -> Val {
    if w == "true"@ {
        Val::True
    } else if w == "false"@ {
        Val::False
    } else {
        Val::Sym(w)
    }
}

/// The value the word `w` writes where a number may stand: an integer that
/// fits 64 bits, a real, or else a symbol.
pub open spec fn number_or_symbol_val(w: Seq<char>) -> Val {
    match int_literal(w) {
        Some(n) => if i64::MIN <= n <= i64::MAX {
            Val::Int(n)
        } else if float_literal(w) {
            Val::Real(w)
        } else {
            Val::Sym(w)
        },
        None => if float_literal(w) {
            Val::Real(w)
        } else {
            Val::Sym(w)
        },
    }
}

/// `w` is the word from the old reader position to the new one.
pub open spec fn word_read(r0: &Reader, r1: &Reader, w: Seq<char>) -> bool {
    &&& w == r0.text().subrange(r0.position(), r1.position())
    &&& forall|i: int| 0 <= i < w.len() ==> !spec_is_delimiter(#[trigger] w[i])
}

/// The characters `w` equal those of the text `s`.
fn chars_are(w: &Vec<char>, s: &str) -> (res: bool)
    ensures
        res == (w@ == s@),
{
    let t = crate::value::string::str_to_chars(s);
    crate::object::mm::chars_equal(w, &t)
}

/// Reads a symbol, or `true` or `false`.
fn read_symbol(reader: &mut Reader, obj: &mut Object) -> (res: Result<Ref, ReadException>)
    requires
        old(reader).wf(),
        old(obj).wf(),
        old(reader).position() < old(reader).text().len(),
        !spec_is_delimiter(old(reader).text()[old(reader).position()]),
    ensures
        read_post(old(reader), final(reader), old(obj), final(obj), res),
        res matches Ok(v) ==> exists|w: Seq<char>|
            word_read(old(reader), final(reader), w) && #[trigger] symbol_val(w) == final(obj).value_of(v),
        ({
            let t = old(reader).text();
            let e = word_end(t, old(reader).position());
            match res {
                Ok(r) => final(obj).value_of(r) == symbol_val(t.subrange(old(reader).position(), e))
                    && final(reader).position() == e,
                Err(x) => x is OutOfMemory && needs_cell(symbol_val(t.subrange(old(reader).position(), e))),
            }
        }),
{
    proof {
        obj.lemma_grown_refl();
    }
    let w = match read_word(reader) {
        Ok(w) => w,
        Err(e) => {
            return Err(e);
        },
    };
    proof {
        assert(w@.len() == reader.position() - old(reader).position());
        assert(w@.len() > 0);
        assert(word_read(old(reader), reader, w@));
    }
    if chars_are(&w, "true") {
        proof {
            assert(symbol_val(w@) == obj.value_of(Ref::True));
        }
        Ok(Bool::true_())
    } else if chars_are(&w, "false") {
        proof {
            assert(symbol_val(w@) == obj.value_of(Ref::False));
        }
        Ok(Bool::false_())
    } else {
        match Symbol::allocate(obj, &w) {
            Ok(r) => {
                proof {
                    assert(symbol_val(w@) == obj.value_of(r));
                }
                Ok(r)
            },
            Err(_) => Err(ReadException::OutOfMemory),
        }
    }
}

/// Reads an integer, a real or a symbol from a word that starts with a sign
/// or a digit.
fn read_number_or_symbol(reader: &mut Reader, obj: &mut Object) -> (res: Result<Ref, ReadException>)
    requires
        old(reader).wf(),
        old(obj).wf(),
        old(reader).position() < old(reader).text().len(),
        !spec_is_delimiter(old(reader).text()[old(reader).position()]),
    ensures
        read_post(old(reader), final(reader), old(obj), final(obj), res),
        res matches Ok(v) ==> exists|w: Seq<char>|
            word_read(old(reader), final(reader), w) && #[trigger] number_or_symbol_val(w) == final(obj).value_of(v),
        ({
            let t = old(reader).text();
            let e = word_end(t, old(reader).position());
            match res {
                Ok(r) => final(obj).value_of(r) == number_or_symbol_val(t.subrange(old(reader).position(), e))
                    && final(reader).position() == e,
                Err(x) => x is OutOfMemory && needs_cell(number_or_symbol_val(t.subrange(old(reader).position(), e))),
            }
        }),
{
    proof {
        obj.lemma_grown_refl();
    }
    let w = match read_word(reader) {
        Ok(w) => w,
        Err(e) => {
            return Err(e);
        },
    };
    proof {
        assert(w@.len() == reader.position() - old(reader).position());
        assert(w@.len() > 0);
        assert(word_read(old(reader), reader, w@));
    }
    match parse_i64(&w) {
        Some(n) => match make_integer(obj, n) {
            Ok(r) => {
                proof {
                    assert(number_or_symbol_val(w@) == obj.value_of(r));
                }
                Ok(r)
            },
            Err(_) => Err(ReadException::OutOfMemory),
        },
        None => {
            let cell = if is_float_literal(&w) {
                Cell::Real(w)
            } else {
                Cell::Symbol(w)
            };
            let ghost c = cell;
            proof {
                assert(cell_refs(cell) =~= Seq::<Ref>::empty());
            }
            match obj.allocate(cell) {
                Ok(r) => {
                    proof {
                        assert(obj.heap_view()[ref_index(r)] == c);
                        assert(number_or_symbol_val(w@) == obj.value_of(r));
                    }
                    Ok(r)
                },
                Err(_) => Err(ReadException::OutOfMemory),
            }
        },
    }
}

/// Reads a keyword: a colon and a word.
fn read_keyword(reader: &mut Reader, obj: &mut Object) -> (res: Result<Ref, ReadException>)
    requires
        old(reader).wf(),
        old(obj).wf(),
        old(reader).position() < old(reader).text().len(),
    ensures
        read_post(old(reader), final(reader), old(obj), final(obj), res),
        ({
            let t = old(reader).text();
            let q = old(reader).position();
            if q + 1 < t.len() {
                let e = word_end(t, q + 1);
                match res {
                    Ok(r) => final(obj).value_of(r) == Val::Kw(t.subrange(q + 1, e)) && final(reader).position() == e,
                    Err(x) => x is OutOfMemory,
                }
            } else {
                res is Err && res->Err_0 is MalformedFormat
            }
        }),
{
    proof {
        obj.lemma_grown_refl();
    }
    reader.advance();
    let w = match read_word(reader) {
        Ok(w) => w,
        Err(e) => {
            return Err(e);
        },
    };
    match Keyword::allocate(obj, &w) {
        Ok(r) => Ok(r),
        Err(_) => Err(ReadException::OutOfMemory),
    }
}


/// What a sequence read between brackets becomes.
#[derive(Clone, Copy, PartialEq, Eq, Structural)]
pub enum SeqKind {
    List,
    Array,
    Tuple,
}

/// Reads the expressions up to the closing character `end` and makes the
/// list, array or tuple of them.
fn read_sequence(kind: SeqKind, end: char, reader: &mut Reader, obj: &mut Object) -> (res: Result<
    Ref,
    ReadException,
>)
    requires
        old(reader).wf(),
        old(obj).wf(),
        old(reader).position() < old(reader).text().len(),
    ensures
        read_post(old(reader), final(reader), old(obj), final(obj), res),
        read_agrees(
            parse_seq(old(reader).text(), old(reader).position() + 1, kind, end, Seq::empty()),
            final(reader),
            final(obj),
            res,
        ),
    decreases old(reader).text().len() - old(reader).position(), 0nat,
{
    reader.advance();
    let mut builder = ListBuilder::new();
    proof {
        obj.lemma_grown_refl();
        assert(values_of(obj, builder.items()) =~= Seq::<Val>::empty());
    }
    loop
        invariant
            reader.wf(),
            reader.text() == old(reader).text(),
            reader.position() > old(reader).position(),
            obj.wf(),
            obj.grown_from(old(obj)),
            all_valid(obj, builder.items()),
            parse_seq(reader.text(), reader.position(), kind, end, values_of(obj, builder.items())) == parse_seq(
                old(reader).text(),
                old(reader).position() + 1,
                kind,
                end,
                Seq::empty(),
            ),
        decreases reader.text().len() - reader.position(),
    {
        let ghost p0 = reader.position();
        skip_whitespace(reader);
        proof {
            lemma_skip_ws(reader.text(), p0);
        }
        match reader.peek() {
            None => {
                return Err(
                    ReadException::MalformedFormat(MalformedFormat::new(None, "EOF before the sequence ended")),
                );
            },
            Some(c) => {
                if c == end {
                    reader.advance();
                    let ghost o1 = *obj;
                    let list = match builder.get(obj) {
                        Ok(l) => l,
                        Err(_) => {
                            proof {
                                obj.lemma_grown_trans(&o1, old(obj));
                            }
                            return Err(ReadException::OutOfMemory);
                        },
                    };
                    proof {
                        obj.lemma_grown_trans(&o1, old(obj));
                    }
                    let ghost o2 = *obj;
                    proof {
                        crate::value::list::lemma_list_val(values_of(&o1, builder.items()));
                    }
                    let made = match kind {
                        SeqKind::List => Ok(list),
                        SeqKind::Array => Array::from_list(obj, list),
                        SeqKind::Tuple => Tuple::from_list(obj, list),
                    };
                    proof {
                        if kind == SeqKind::List {
                            obj.lemma_grown_refl();
                        }
                        obj.lemma_grown_trans(&o2, old(obj));
                        if let Ok(r) = made {
                            if kind == SeqKind::List {
                                assert(obj.value_of(r) == seq_value(kind, values_of(&o1, builder.items())));
                            }
                        }
                    }
                    return match made {
                        Ok(r) => Ok(r),
                        Err(_) => Err(ReadException::OutOfMemory),
                    };
                }
                let ghost o1 = *obj;
                let ghost items = builder.items();
                let ghost q = reader.position();
                let v = match read_internal(reader, obj) {
                    Ok(v) => v,
                    Err(e) => {
                        proof {
                            obj.lemma_grown_trans(&o1, old(obj));
                            let t = reader.text();
                            match parse_datum(t, q) {
                                Parsed::Datum(w, e1) => {
                                    if q < e1 <= t.len() {
                                        lemma_seq_needs_cell(t, e1, kind, end, values_of(&o1, items).push(w));
                                    }
                                },
                                _ => {},
                            }
                        }
                        return Err(e);
                    },
                };
                proof {
                    obj.lemma_grown_trans(&o1, old(obj));
                    assert forall|k: int| 0 <= k < items.len() implies obj.valid(#[trigger] items[k]) by {
                        assert(o1.valid(items[k]));
                    }
                }
                builder.push(v);
                proof {
                    assert forall|k: int| 0 <= k < builder.items().len() implies obj.valid(#[trigger] builder.items()[k]) by {
                        if k < items.len() {
                            assert(builder.items()[k] == items[k]);
                        }
                    }
                    assert forall|k: int| 0 <= k < items.len() implies #[trigger] obj.value_of(items[k]) == o1.value_of(
                        items[k],
                    ) by {
                        crate::value::any::lemma_denote_extends(o1.heap_view(), obj.heap_view(), items[k]);
                    }
                    assert(values_of(obj, builder.items()) =~= values_of(&o1, items).push(obj.value_of(v)));
                }
            },
        }
    }
}

/// Reads the expression after a quote or bind mark and makes the list of the
/// syntax and the expression.
fn read_with_modifier(modifier: SyntaxId, reader: &mut Reader, obj: &mut Object) -> (res: Result<Ref, ReadException>)
    requires
        old(reader).wf(),
        old(obj).wf(),
        old(reader).position() < old(reader).text().len(),
    ensures
        read_post(old(reader), final(reader), old(obj), final(obj), res),
        res matches Ok(v) ==> final(obj).value_of(v) is Pair,
        read_agrees(
            modified(modifier, parse_datum(old(reader).text(), old(reader).position() + 1)),
            final(reader),
            final(obj),
            res,
        ),
    decreases old(reader).text().len() - old(reader).position(), 0nat,
{
    reader.advance();
    let ghost o0 = *obj;
    let v = match read_internal(reader, obj) {
        Ok(v) => v,
        Err(e) => {
            return Err(e);
        },
    };
    let ghost o1 = *obj;
    let tail = match List::cons(obj, v, Ref::Nil) {
        Ok(t) => t,
        Err(_) => {
            proof {
                obj.lemma_grown_trans(&o1, old(obj));
            }
            return Err(ReadException::OutOfMemory);
        },
    };
    proof {
        obj.lemma_grown_trans(&o1, old(obj));
    }
    let ghost o2 = *obj;
    let res = List::cons(obj, Ref::Syntax(modifier), tail);
    proof {
        obj.lemma_grown_trans(&o2, old(obj));
    }
    match res {
        Ok(r) => Ok(r),
        Err(_) => Err(ReadException::OutOfMemory),
    }
}

/// Reads one expression after the whitespace at the reader's position.
fn read_internal(reader: &mut Reader, obj: &mut Object) -> (res: Result<Ref, ReadException>)
    requires
        old(reader).wf(),
        old(obj).wf(),
    ensures
        read_post(old(reader), final(reader), old(obj), final(obj), res),
        (forall|i: int|
            old(reader).position() <= i < old(reader).text().len() ==> spec_is_whitespace(#[trigger] old(reader).text()[i]))
            ==> res matches Err(ReadException::EOF),
        read_agrees(parse_datum(old(reader).text(), old(reader).position()), final(reader), final(obj), res),
        close_refused(old(reader), final(reader), res),
    decreases old(reader).text().len() - old(reader).position(), 1nat,
{
    skip_whitespace(reader);
    proof {
        lemma_skip_ws_at(reader.text(), old(reader).position(), reader.position());
    }
    proof {
        obj.lemma_grown_refl();
    }
    match reader.peek() {
        None => Err(ReadException::EOF),
        Some(c) => {
            if c == '(' {
                read_sequence(SeqKind::List, ')', reader, obj)
            } else if c == '[' {
                read_sequence(SeqKind::Array, ']', reader, obj)
            } else if c == '{' {
                read_sequence(SeqKind::Tuple, '}', reader, obj)
            } else if c == ')' {
                Err(ReadException::MalformedFormat(MalformedFormat::new(None, "read error )")))
            } else if c == ']' {
                Err(ReadException::MalformedFormat(MalformedFormat::new(None, "read error ]")))
            } else if c == '}' {
                Err(ReadException::MalformedFormat(MalformedFormat::new(None, "read error }")))
            } else if c == '"' {
                read_string(reader, obj)
            } else if c == '\'' {
                read_with_modifier(SyntaxId::Quote, reader, obj)
            } else if c == '@' {
                read_with_modifier(SyntaxId::Bind, reader, obj)
            } else if c == '+' || c == '-' || ('0' <= c && c <= '9') {
                read_number_or_symbol(reader, obj)
            } else if c == ':' {
                read_keyword(reader, obj)
            } else {
                read_symbol(reader, obj)
            }
        },
    }
}

/// Reads one expression: its value in the object's heap, or why it could
/// not (the end of the text, a malformed text, or a full heap).
pub fn read(reader: &mut Reader, obj: &mut Object) -> (res: Result<Ref, ReadException>)
    requires
        old(reader).wf(),
        old(obj).wf(),
    ensures
        read_post(old(reader), final(reader), old(obj), final(obj), res),
        (forall|i: int|
            old(reader).position() <= i < old(reader).text().len() ==> spec_is_whitespace(#[trigger] old(reader).text()[i]))
            ==> res matches Err(ReadException::EOF),
        read_agrees(parse_datum(old(reader).text(), old(reader).position()), final(reader), final(obj), res),
        close_refused(old(reader), final(reader), res),
{
    read_internal(reader, obj)
}

} // verus!
