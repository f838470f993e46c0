//! The object-notation parser.
//!
//! The grammar is given by the spec functions `spec_parse_*`; each parse
//! function of `ObjectSyntax` is proved to compute exactly its spec function.
use vstd::prelude::*;
use vstd::utf8::{decode_utf8, encode_utf8, encode_utf8_decode_utf8, valid_utf8};
use vstd::string::{StrSliceExecFns, StringExecFns, StringSliceAdditionalSpecFns};
use crate::format::split_once_char;
use crate::chars::{key_end, Cursor, TapeExt};
use crate::number::{classify_float, float_literal, nan_literal};
use crate::object::{
    distinct_keys, view_entries, view_items, Error, ErrorView, Key, Number, Object, ObjectMap,
    ObjectView, InvalidKey,
};
use crate::tape::{
    consume_line, consume_simple_ws, consume_ws_nl, consume_ws_nl_comma, consumed_to, is_at,
    lemma_consumed_to, pred_not_nl, pred_simple_ws, pred_ws_nl, pred_ws_nl_comma, spec_is_at,
};

verus! {

/// What `unindent::unindent` makes of a text.
pub uninterp spec fn unindented(s: Seq<char>) -> Seq<char>;

/// Calls `unindent::unindent`, which strips the indentation common to the lines
/// of a text and a first line that is empty. The result is named `unindented`.
#[verifier::external_body]
pub(crate) fn unindent_str(s: &str) -> (r: String)
    ensures
        r@ == unindented(s@),
{
    unindent::unindent(s)
}

/// Calls `std::str::from_utf8`: succeeds exactly on valid UTF-8, with the same bytes.
#[verifier::external_body]
pub(crate) fn utf8_str(b: &[u8]) -> (r: Result<&str, std::str::Utf8Error>)
    ensures
        r is Ok <==> valid_utf8(b@),
        r matches Ok(s) ==> s.spec_bytes() == b@,
{
    std::str::from_utf8(b)
}

/// The characters of valid UTF-8 bytes.
pub proof fn lemma_str_chars(s: &str, b: Seq<u8>)
    requires
        s.spec_bytes() == b,
    ensures
        s@ == decode_utf8(b),
{
    encode_utf8_decode_utf8(s@);
}

/// A language syntax that can be compiled.
pub trait Compile: Sized {
    type Output;

    /// The syntaxes on which compiling is defined.
    spec fn ready(&self) -> bool;

    /// Compile the given syntax.
    fn compile(self) -> Self::Output
        requires
            self.ready(),
    ;
}

pub open spec fn msg_empty() -> Seq<char> {
    "cannot parse float from empty string"@
}

pub open spec fn msg_invalid() -> Seq<char> {
    "invalid float literal"@
}

pub open spec fn byte_at(s: Seq<u8>, p: int) -> u8 {
    if 0 <= p < s.len() {
        s[p]
    } else {
        0u8
    }
}

/// Index of the closing delimiter of a string whose body starts at `i`, or the length.
/// A backslash escapes the next byte; two backslashes cancel out.
pub open spec fn string_close(s: Seq<u8>, i: int, delim: u8, escaped: bool) -> int
    decreases s.len() - i,
{
    if i < 0 || i >= s.len() {
        s.len() as int
    } else if s[i] == 92u8 {
        string_close(s, i + 1, delim, !escaped)
    } else if s[i] == delim && !escaped {
        i
    } else {
        string_close(s, i + 1, delim, false)
    }
}

/// A text with its escapes resolved: each backslash that escapes the character
/// after it is dropped, and that character kept as it is.
pub open spec fn unescaped(c: Seq<char>) -> Seq<char>
    decreases c.len(),
{
    if c.len() == 0 {
        c
    } else if c[0] == '\\' && c.len() >= 2 {
        seq![c[1]] + unescaped(c.subrange(2, c.len() as int))
    } else {
        seq![c[0]] + unescaped(c.drop_first())
    }
}

/// A text without its last character when that is a newline.
pub open spec fn drop_final_newline(t: Seq<char>) -> Seq<char> {
    if t.len() > 0 && t.last() == '\n' {
        t.drop_last()
    } else {
        t
    }
}

/// The string value of a quoted body: a multi-line body is unindented (which
/// removes a leading newline) and loses a trailing newline; then escapes are
/// resolved.
pub open spec fn string_value(raw: Seq<u8>) -> Seq<char> {
    unescaped(
        if raw.contains(10u8) {
            drop_final_newline(unindented(decode_utf8(raw)))
        } else {
            decode_utf8(raw)
        },
    )
}

/// Drops the last character of a text when that is a newline.
fn drop_final_newline_str(t: &str) -> (r: &str)
    ensures
        r@ == drop_final_newline(t@),
{
    let n = t.unicode_len();
    if n > 0 && t.get_char(n - 1) == '\n' {
        let r = t.substring_char(0, n - 1);
        assert(r@ =~= t@.drop_last());
        r
    } else {
        t
    }
}

/// Text with no backslash is left as it is, in front of what follows.
pub proof fn lemma_unescaped_plain(a: Seq<char>, x: Seq<char>)
    requires
        !a.contains('\\'),
    ensures
        unescaped(a + x) == a + unescaped(x),
    decreases a.len(),
{
    if a.len() > 0 {
        let c = a + x;
        assert(c[0] == a[0]);
        assert(a[0] != '\\') by {
            if a[0] == '\\' {
                assert(a.contains('\\'));
            }
        }
        assert(c.drop_first() =~= a.drop_first() + x);
        assert(!a.drop_first().contains('\\')) by {
            if a.drop_first().contains('\\') {
                let k = choose|k: int| 0 <= k < a.drop_first().len() && a.drop_first()[k] == '\\';
                assert(a[k + 1] == '\\');
            }
        }
        lemma_unescaped_plain(a.drop_first(), x);
        assert(seq![a[0]] + (a.drop_first() + unescaped(x)) =~= a + unescaped(x));
    } else {
        assert(a + x =~= x);
    }
}

/// Resolves the escapes of a text.
fn unescape_str(t: &str) -> (r: String)
    ensures
        r@ == unescaped(t@),
{
    let mut out = String::new();
    let mut rest: &str = t;
    loop
        invariant
            out@ + unescaped(rest@) == unescaped(t@),
        decreases rest@.len(),
    {
        match split_once_char(rest, '\\') {
            None => {
                proof {
                    lemma_unescaped_plain(rest@, Seq::empty());
                    assert(rest@ + Seq::<char>::empty() =~= rest@);
                }
                out.append(rest);
                return out;
            },
            Some((a, b)) => {
                let ghost before = rest@;
                proof {
                    lemma_unescaped_plain(a@, seq!['\\'] + b@);
                    assert(before =~= a@ + (seq!['\\'] + b@));
                }
                out.append(a);
                let n = b.unicode_len();
                if n == 0 {
                    let bs = "\\";
                    proof {
                        reveal_strlit("\\");
                        assert(seq!['\\'] + b@ =~= seq!['\\']);
                        let one = seq!['\\'];
                        assert(one.len() == 1 && one[0] == '\\');
                        assert(one.drop_first() =~= Seq::<char>::empty());
                        assert(unescaped(Seq::<char>::empty()) =~= Seq::<char>::empty());
                        assert(unescaped(one) == seq![one[0]] + unescaped(one.drop_first()));
                        assert(unescaped(one) =~= one);
                    }
                    out.append(bs);
                    assert(out@ =~= unescaped(t@));
                    return out;
                }
                let first = b.substring_char(0, 1);
                let tail = b.substring_char(1, n);
                proof {
                    let c = seq!['\\'] + b@;
                    assert(c[0] == '\\');
                    assert(c.subrange(2, c.len() as int) =~= tail@);
                    assert(first@ =~= seq![c[1]]);
                }
                out.append(first);
                rest = tail;
            },
        }
    }
}

/// A quoted string whose opening delimiter is at `pos`.
pub open spec fn spec_parse_string(s: Seq<u8>, pos: int, delim: u8) -> Result<(ObjectView, int), ErrorView> {
    let j = string_close(s, pos + 1, delim, false);
    if j >= s.len() {
        Err(ErrorView::MissingCloser { open: delim, close: delim, open_pos: pos })
    } else if !valid_utf8(s.subrange(pos + 1, j)) {
        Err(ErrorView::InvalidUtf8)
    } else {
        Ok((ObjectView::String(string_value(s.subrange(pos + 1, j))), j + 1))
    }
}

/// A number literal starting at `pos`: the rest of the line (or of the input).
pub open spec fn spec_parse_number(s: Seq<u8>, pos: int) -> Result<(ObjectView, int), ErrorView> {
    let e = crate::tape::first_fail(s, pos, pred_not_nl());
    let raw = s.subrange(pos, e);
    if !valid_utf8(raw) {
        Err(ErrorView::InvalidUtf8)
    } else if !float_literal(raw) {
        Err(
            ErrorView::InvalidNumber {
                pos,
                cause: if raw.len() == 0 {
                    msg_empty()
                } else {
                    msg_invalid()
                },
            },
        )
    } else if nan_literal(raw) {
        Err(ErrorView::NumberIsNan { pos })
    } else {
        Ok((ObjectView::Number(decode_utf8(raw)), e))
    }
}

pub open spec fn word_true() -> Seq<u8> {
    seq![116u8, 114u8, 117u8, 101u8]
}

pub open spec fn word_false() -> Seq<u8> {
    seq![102u8, 97u8, 108u8, 115u8, 101u8]
}

pub open spec fn word_null() -> Seq<u8> {
    seq![110u8, 117u8, 108u8, 108u8]
}

pub open spec fn word_inf() -> Seq<u8> {
    seq![105u8, 110u8, 102u8]
}

pub open spec fn word_infinity() -> Seq<u8> {
    seq![105u8, 110u8, 102u8, 105u8, 110u8, 105u8, 116u8, 121u8]
}

/// The entries of `m`, each key preceded by `key`.
pub open spec fn prefixed(m: Map<Seq<char>, ObjectView>, key: Seq<char>) -> Map<Seq<char>, ObjectView> {
    Map::new(
        |k: Seq<char>|
            k.len() >= key.len() && k.subrange(0, key.len() as int) == key && m.contains_key(
                k.subrange(key.len() as int, k.len() as int),
            ),
        |k: Seq<char>| m[k.subrange(key.len() as int, k.len() as int)],
    )
}

/// Any value, starting at `pos`.
pub open spec fn spec_parse_any(s: Seq<u8>, pos: int) -> Result<(ObjectView, int), ErrorView>
    decreases s.len() - pos, 2int,
{
    if pos < 0 || pos >= s.len() {
        Err(ErrorView::MissingValue { pos })
    } else if spec_is_at(s, pos, word_true()) {
        Ok((ObjectView::Bool(true), pos + 4))
    } else if spec_is_at(s, pos, word_false()) {
        Ok((ObjectView::Bool(false), pos + 5))
    } else if spec_is_at(s, pos, word_null()) {
        Ok((ObjectView::Null, pos + 4))
    } else if spec_is_at(s, pos, word_infinity()) {
        Ok((ObjectView::Number("infinity"@), pos + 8))
    } else if spec_is_at(s, pos, word_inf()) {
        Ok((ObjectView::Number("inf"@), pos + 3))
    } else {
        let ch = s[pos];
        if ch == 123u8 {
            spec_parse_map(s, pos)
        } else if ch == 91u8 {
            spec_parse_list(s, pos)
        } else if ch == 34u8 || ch == 39u8 {
            spec_parse_string(s, pos, ch)
        } else if ch == 45u8 || ch == 43u8 || (48u8 <= ch <= 57u8) {
            spec_parse_number(s, pos)
        } else if ch == 59u8 {
            Err(ErrorView::MissingValue { pos })
        } else {
            Err(ErrorView::IllegalCharacter { ch, pos })
        }
    }
}

/// A map whose `{` is at `pos`.
pub open spec fn spec_parse_map(s: Seq<u8>, pos: int) -> Result<(ObjectView, int), ErrorView>
    decreases s.len() - pos, 1int,
{
    if !(0 <= pos < s.len() && s[pos] == 123u8) {
        Err(ErrorView::IllegalCharacter { ch: byte_at(s, pos), pos })
    } else {
        let p = consumed_to(s, pos + 1, pred_simple_ws());
        proof {
            lemma_consumed_to(s, pos + 1, pred_simple_ws());
        }
        spec_map_loop(s, p, pos, Map::empty())
    }
}

/// The entries of a map, from `p` on; `acc` holds the entries read so far.
pub open spec fn spec_map_loop(
    s: Seq<u8>,
    p: int,
    open_pos: int,
    acc: Map<Seq<char>, ObjectView>,
) -> Result<(ObjectView, int), ErrorView>
    decreases s.len() - p, 3int,
{
    if p < 0 || p > s.len() {
        Err(ErrorView::MissingValue { pos: p })
    } else {
        let p1 = consumed_to(s, p, pred_ws_nl_comma());
        proof {
            lemma_consumed_to(s, p, pred_ws_nl_comma());
        }
        if p1 >= s.len() {
            Err(ErrorView::MissingCloser { open: 123u8, close: 125u8, open_pos })
        } else if s[p1] == 125u8 {
            Ok((ObjectView::Mapping(acc), p1 + 1))
        } else {
            let ke = key_end(s, p1);
            let kb = s.subrange(p1, ke);
            if !valid_utf8(kb) {
                Err(ErrorView::InvalidUtf8)
            } else if ke == p1 {
                Err(ErrorView::IllegalCharacter { ch: s[p1], pos: p1 })
            } else {
                proof {
                    crate::tape::lemma_first_fail_bounds(s, p1 + 1, crate::tape::pred_key_part());
                }
                let key = decode_utf8(kb);
                if kb.last() == 46u8 && ke < s.len() && s[ke] == 123u8 {
                    match spec_parse_map(s, ke) {
                        Err(e) => Err(e),
                        Ok((ObjectView::Mapping(inner), q)) => {
                            if q <= p || q > s.len() {
                                Err(ErrorView::MissingValue { pos: p1 })
                            } else {
                                spec_map_loop(s, q, open_pos, acc.union_prefer_right(prefixed(inner, key)))
                            }
                        },
                        Ok(_) => Err(ErrorView::MissingValue { pos: p1 }),
                    }
                } else {
                    let p2 = consumed_to(s, ke, pred_simple_ws());
                    proof {
                        lemma_consumed_to(s, ke, pred_simple_ws());
                    }
                    if !(p2 < s.len() && s[p2] == 58u8) {
                        Err(ErrorView::IllegalCharacter { ch: byte_at(s, p2), pos: p2 })
                    } else {
                        let p3 = consumed_to(s, p2 + 1, pred_simple_ws());
                        proof {
                            lemma_consumed_to(s, p2 + 1, pred_simple_ws());
                        }
                        match spec_parse_any(s, p3) {
                            Err(e) => Err(e),
                            Ok((v, p4)) => {
                                if p4 <= p || p4 > s.len() {
                                    Err(ErrorView::MissingValue { pos: p3 })
                                } else {
                                    spec_map_loop(s, p4, open_pos, acc.insert(key, v))
                                }
                            },
                        }
                    }
                }
            }
        }
    }
}

/// A list whose `[` is at `pos`.
pub open spec fn spec_parse_list(s: Seq<u8>, pos: int) -> Result<(ObjectView, int), ErrorView>
    decreases s.len() - pos, 1int,
{
    if !(0 <= pos < s.len()) {
        Err(ErrorView::MissingValue { pos })
    } else {
        spec_list_loop(s, pos + 1, Seq::empty())
    }
}

/// The items of a list, from `p` on; `items` holds the items read so far.
pub open spec fn spec_list_loop(s: Seq<u8>, p: int, items: Seq<ObjectView>) -> Result<(ObjectView, int), ErrorView>
    decreases s.len() - p, 3int,
{
    if p < 0 || p > s.len() {
        Err(ErrorView::MissingValue { pos: p })
    } else {
        let p1 = consumed_to(s, p, pred_ws_nl());
        proof {
            lemma_consumed_to(s, p, pred_ws_nl());
        }
        if p1 < s.len() && s[p1] == 93u8 {
            Ok((ObjectView::List(items), p1 + 1))
        } else if p1 >= s.len() {
            Err(ErrorView::MissingCloser { open: 91u8, close: 93u8, open_pos: p1 })
        } else {
            match spec_parse_any(s, p1) {
                Err(e) => Err(e),
                Ok((v, p2)) => {
                    if p2 <= p1 || p2 > s.len() {
                        Err(ErrorView::MissingValue { pos: p1 })
                    } else {
                        let p3 = consumed_to(s, p2, pred_ws_nl());
                        proof {
                            lemma_consumed_to(s, p2, pred_ws_nl());
                        }
                        if p3 < s.len() && s[p3] == 44u8 {
                            spec_list_loop(s, p3 + 1, items.push(v))
                        } else if !(p3 < s.len() && s[p3] == 93u8) {
                            Err(ErrorView::IllegalCharacter { ch: byte_at(s, p3), pos: p3 })
                        } else {
                            spec_list_loop(s, p3, items.push(v))
                        }
                    }
                },
            }
        }
    }
}

/// The result of compiling a whole input: the value at its start.
pub open spec fn spec_compile(s: Seq<u8>) -> Result<ObjectView, ErrorView> {
    match spec_parse_any(s, 0) {
        Ok((o, _)) => Ok(o),
        Err(e) => Err(e),
    }
}

pub open spec fn view_result(r: Result<(Object, usize), Error>) -> Result<(ObjectView, int), ErrorView> {
    match r {
        Ok((o, p)) => Ok((o@, p as int)),
        Err(e) => Err(e@),
    }
}

pub open spec fn view_value(r: Result<Object, Error>) -> Result<ObjectView, ErrorView> {
    match r {
        Ok(o) => Ok(o@),
        Err(e) => Err(e@),
    }
}

/// Object notation syntax.
///
/// On success, calling `compile` returns the decoded data.
pub struct ObjectSyntax<'a> {
    /// The input text.
    pub input: &'a [u8],
    /// If true, expressions are allowed.
    pub expr_mode: bool,
}

impl<'a> Compile for ObjectSyntax<'a> {
    type Output = Result<Object, Error>;

    open spec fn ready(&self) -> bool {
        true
    }

    fn compile(self) -> (r: Result<Object, Error>)
        ensures
            view_value(r) == spec_compile(self.input@),
    {
        match self.parse_any(0) {
            Ok((o, _)) => Ok(o),
            Err(e) => Err(e),
        }
    }
}

fn contains_newline(b: &[u8]) -> (r: bool)
    ensures
        r == b@.contains(10u8),
{
    let mut i: usize = 0;
    while i < b.len()
        invariant
            i <= b@.len(),
            forall|j: int| 0 <= j < i ==> b@[j] != 10u8,
        decreases b@.len() - i,
    {
        if b[i] == 10u8 {
            assert(b@[i as int] == 10u8);
            return true;
        }
        i += 1;
    }
    false
}

/// Folding the entries of `m`, keys prefixed, into a map.
proof fn lemma_prefixed_insert(m: Map<Seq<char>, ObjectView>, key: Seq<char>, k: Seq<char>, v: ObjectView)
    ensures
        prefixed(m.insert(k, v), key) == prefixed(m, key).insert(key + k, v),
        !m.contains_key(k) ==> !prefixed(m, key).contains_key(key + k),
{
    let a = prefixed(m.insert(k, v), key);
    let b = prefixed(m, key).insert(key + k, v);
    assert((key + k).subrange(0, key.len() as int) == key);
    assert((key + k).subrange(key.len() as int, (key + k).len() as int) == k);
    assert forall|x: Seq<char>| a.contains_key(x) <==> b.contains_key(x) by {
        if x.len() >= key.len() && x.subrange(0, key.len() as int) == key {
            let rest = x.subrange(key.len() as int, x.len() as int);
            if rest == k {
                assert(x == key + k);
            }
        }
    }
    assert forall|x: Seq<char>| a.contains_key(x) implies a[x] == b[x] by {
        let rest = x.subrange(key.len() as int, x.len() as int);
        if rest == k {
            assert(x == key + k);
        }
    }
    assert(a =~= b);
}

proof fn lemma_prefixed_empty(key: Seq<char>)
    ensures
        prefixed(Map::empty(), key) == Map::<Seq<char>, ObjectView>::empty(),
{
    assert(prefixed(Map::empty(), key) =~= Map::<Seq<char>, ObjectView>::empty());
}

impl<'a> ObjectSyntax<'a> {
    pub fn new(input: &'a str, expr_mode: bool) -> (r: Self)
        ensures
            r.input@ == input.spec_bytes(),
            r.expr_mode == expr_mode,
    {
        ObjectSyntax { input: input.as_bytes(), expr_mode }
    }

    /// Parses a single- or multi-line quoted string whose opening delimiter is at `pos`.
    ///
    /// A backslash escapes the next byte; a raw newline is legal inside the
    /// string, in which case the body is unindented.
    fn parse_string(&self, pos: usize, delim: u8) -> (r: Result<(Object, usize), Error>)
        requires
            pos < self.input@.len(),
        ensures
            view_result(r) == spec_parse_string(self.input@, pos as int, delim),
            r matches Ok((_, q)) ==> pos < q <= self.input@.len(),
    {
        let s = self.input;
        let n = s.len();
        let mut i: usize = pos + 1;
        let mut escaped = false;
        while i < s.len()
            invariant
                pos + 1 <= i <= s@.len(),
                s@ == self.input@,
                string_close(s@, pos + 1, delim, false) == string_close(s@, i as int, delim, escaped),
            decreases s@.len() - i,
        {
            let c = s[i];
            if c == 92u8 {
                escaped = !escaped;
                i += 1;
            } else if c == delim && !escaped {
                let raw = &s[pos + 1..i];
                match utf8_str(raw) {
                    Err(e) => {
                        return Err(Error::InvalidUtf8(e));
                    },
                    Ok(st) => {
                        proof {
                            lemma_str_chars(st, raw@);
                        }
                        let value = if contains_newline(raw) {
                            let u = unindent_str(st);
                            unescape_str(drop_final_newline_str(u.as_str()))
                        } else {
                            unescape_str(st)
                        };
                        return Ok((Object::String(value), i + 1));
                    },
                }
            } else {
                escaped = false;
                i += 1;
            }
        }
        Err(Error::MissingCloser { open: delim, close: delim, open_pos: pos })
    }

    /// Parses the number literal at `pos`, which spans the rest of the line.
    fn parse_number(&self, pos: usize) -> (r: Result<(Object, usize), Error>)
        requires
            pos < self.input@.len(),
            self.input@[pos as int] != 10u8,
        ensures
            view_result(r) == spec_parse_number(self.input@, pos as int),
            r matches Ok((_, q)) ==> pos < q <= self.input@.len(),
    {
        let s = self.input;
        let e0 = consume_line(s, pos);
        proof {
            lemma_consumed_to(s@, pos as int, pred_not_nl());
            crate::tape::lemma_first_fail_bounds(s@, pos as int, pred_not_nl());
        }
        // `Tape::consume` stays put when no newline follows; the number then
        // runs to the end of the input.
        let e = if e0 == pos {
            s.len()
        } else {
            e0
        };
        let raw = &s[pos..e];
        match utf8_str(raw) {
            Err(er) => Err(Error::InvalidUtf8(er)),
            Ok(st) => {
                proof {
                    lemma_str_chars(st, raw@);
                }
                let (ok, nan) = classify_float(raw);
                if !ok {
                    let cause = if raw.len() == 0 {
                        String::from_str("cannot parse float from empty string")
                    } else {
                        String::from_str("invalid float literal")
                    };
                    Err(Error::InvalidNumber { pos, cause })
                } else if nan {
                    Err(Error::NumberIsNan { pos })
                } else {
                    assert(raw@.len() > 0) by {
                        if raw@.len() == 0 {
                            assert(crate::number::unsigned(raw@) == raw@);
                            assert(crate::tape::first_fail(raw@, 0, crate::number::pred_not_exp()) == 0);
                            assert(crate::tape::first_fail(raw@.subrange(0, 0), 0, crate::number::pred_not_dot()) == 0);
                        }
                    }
                    Ok((Object::Number(Number { literal: String::from_str(st) }), e))
                }
            },
        }
    }

    /// Parses any value at `pos`.
    fn parse_any(&self, pos: usize) -> (r: Result<(Object, usize), Error>)
        requires
            pos <= self.input@.len(),
        ensures
            view_result(r) == spec_parse_any(self.input@, pos as int),
            r matches Ok((_, q)) ==> pos < q <= self.input@.len(),
        decreases self.input@.len() - pos, 2int,
    {
        let s = self.input;
        if pos >= s.len() {
            return Err(Error::MissingValue { pos });
        }
        let w_true = [116u8, 114u8, 117u8, 101u8];
        let w_false = [102u8, 97u8, 108u8, 115u8, 101u8];
        let w_null = [110u8, 117u8, 108u8, 108u8];
        let w_inf = [105u8, 110u8, 102u8];
        let w_infinity = [105u8, 110u8, 102u8, 105u8, 110u8, 105u8, 116u8, 121u8];
        assert(w_true@ == word_true());
        assert(w_false@ == word_false());
        assert(w_null@ == word_null());
        assert(w_inf@ == word_inf());
        assert(w_infinity@ == word_infinity());
        if is_at(s, pos, w_true.as_slice()) {
            return Ok((Object::Bool(true), pos + 4));
        }
        if is_at(s, pos, w_false.as_slice()) {
            return Ok((Object::Bool(false), pos + 5));
        }
        if is_at(s, pos, w_null.as_slice()) {
            return Ok((Object::Null, pos + 4));
        }
        if is_at(s, pos, w_infinity.as_slice()) {
            return Ok((Object::Number(Number { literal: String::from_str("infinity") }), pos + 8));
        }
        if is_at(s, pos, w_inf.as_slice()) {
            return Ok((Object::Number(Number { literal: String::from_str("inf") }), pos + 3));
        }
        let ch = s[pos];
        if ch == 123u8 {
            self.parse_map(pos)
        } else if ch == 91u8 {
            self.parse_list(pos)
        } else if ch == 34u8 || ch == 39u8 {
            self.parse_string(pos, ch)
        } else if ch == 45u8 || ch == 43u8 || (48u8 <= ch && ch <= 57u8) {
            self.parse_number(pos)
        } else if ch == 59u8 {
            Err(Error::MissingValue { pos })
        } else {
            Err(Error::IllegalCharacter { ch, pos })
        }
    }

    /// Parses a map whose `{` is at `pos`.
    fn parse_map(&self, pos: usize) -> (r: Result<(Object, usize), Error>)
        requires
            pos <= self.input@.len(),
        ensures
            view_result(r) == spec_parse_map(self.input@, pos as int),
            r matches Ok((o, q)) ==> pos < q <= self.input@.len() && o is Mapping && o->Mapping_0.wf(),
        decreases self.input@.len() - pos, 1int,
    {
        let s = self.input;
        if !(pos < s.len() && s[pos] == 123u8) {
            let ch = if pos < s.len() { s[pos] } else { 0u8 };
            return Err(Error::IllegalCharacter { ch, pos });
        }
        let open_pos = pos;
        let mut p = consume_simple_ws(s, pos + 1);
        proof {
            lemma_consumed_to(s@, pos + 1, pred_simple_ws());
        }
        let mut map = ObjectMap::new();
        loop
            invariant
                s@ == self.input@,
                pos < p <= s@.len(),
                open_pos == pos,
                map.wf(),
                spec_parse_map(s@, pos as int) == spec_map_loop(s@, p as int, open_pos as int, map@),
            decreases s@.len() - p,
        {
            let p1 = consume_ws_nl_comma(s, p);
            proof {
                lemma_consumed_to(s@, p as int, pred_ws_nl_comma());
            }
            if p1 >= s.len() {
                return Err(Error::MissingCloser { open: 123u8, close: 125u8, open_pos });
            }
            let ch = s[p1];
            if ch == 125u8 {
                return Ok((Object::Mapping(map), p1 + 1));
            }
            let mut cur = Cursor { raw: s, pos: p1 };
            let (ks, ke) = cur.consume_key();
            proof {
                crate::tape::lemma_first_fail_bounds(s@, p1 + 1, crate::tape::pred_key_part());
            }
            assert(ke <= s@.len());
            let kb = &s[ks..ke];
            let key = match utf8_str(kb) {
                Err(e) => {
                    return Err(Error::InvalidUtf8(e));
                },
                Ok(k) => k,
            };
            proof {
                lemma_str_chars(key, kb@);
            }
            if ke == p1 {
                return Err(Error::IllegalCharacter { ch, pos: ke });
            }
            if kb[kb.len() - 1] == 46u8 && ke < s.len() && s[ke] == 123u8 {
                assert(kb@.last() == kb@[kb@.len() - 1]);
                match self.parse_map(ke) {
                    Err(e) => {
                        return Err(e);
                    },
                    Ok((Object::Mapping(inner), q)) => {
                        let ghost acc0 = map@;
                        let ghost inner_view = inner@;
                        let mut entries = inner.entries;
                        proof {
                            lemma_prefixed_empty(key@);
                            assert(acc0.union_prefer_right(prefixed(view_entries(entries@), key@))
                                == acc0.union_prefer_right(prefixed(inner_view, key@)));
                        }
                        while entries.len() > 0
                            invariant
                                map.wf(),
                                distinct_keys(entries@),
                                map@.union_prefer_right(prefixed(view_entries(entries@), key@))
                                    == acc0.union_prefer_right(prefixed(inner_view, key@)),
                            decreases entries@.len(),
                        {
                            let ghost before = entries@;
                            let ghost map_before = map@;
                            let (k, v) = entries.pop().unwrap();
                            proof {
                                assert(entries@ == before.drop_last());
                                assert(distinct_keys(entries@));
                                crate::object::lemma_view_entries_dom(entries@, k.0@);
                                assert(!view_entries(entries@).contains_key(k.0@)) by {
                                    if view_entries(entries@).contains_key(k.0@) {
                                        let i = choose|i: int| 0 <= i < entries@.len() && #[trigger] entries@[i].0.0@ == k.0@;
                                        assert(before[i] == entries@[i]);
                                        assert(before[before.len() - 1].0.0@ == k.0@);
                                    }
                                }
                                lemma_prefixed_insert(view_entries(entries@), key@, k.0@, view_object_of(&v));
                            }
                            let full = String::from_str(key).concat(k.0.as_str());
                            let ghost vv = v@;
                            map.insert(Key(full), v);
                            proof {
                                let pm = prefixed(view_entries(entries@), key@);
                                assert(map@ == map_before.insert(key@ + k.0@, vv));
                                assert(map@.union_prefer_right(pm) =~= map_before.union_prefer_right(
                                    pm.insert(key@ + k.0@, vv),
                                ));
                            }
                        }
                        proof {
                            assert(view_entries(entries@) == Map::<Seq<char>, ObjectView>::empty());
                            lemma_prefixed_empty(key@);
                            assert(map@.union_prefer_right(Map::empty()) =~= map@);
                        }
                        p = q;
                    },
                    Ok((_, _)) => {
                        return Err(Error::MissingValue { pos: p1 });
                    },
                }
            } else {
                let p2 = consume_simple_ws(s, ke);
                proof {
                    lemma_consumed_to(s@, ke as int, pred_simple_ws());
                }
                if !(p2 < s.len() && s[p2] == 58u8) {
                    let c2 = if p2 < s.len() { s[p2] } else { 0u8 };
                    return Err(Error::IllegalCharacter { ch: c2, pos: p2 });
                }
                let p3 = consume_simple_ws(s, p2 + 1);
                proof {
                    lemma_consumed_to(s@, p2 + 1, pred_simple_ws());
                }
                match self.parse_any(p3) {
                    Err(e) => {
                        return Err(e);
                    },
                    Ok((v, p4)) => {
                        map.insert(Key(String::from_str(key)), v);
                        p = p4;
                    },
                }
            }
        }
    }

    /// Parses a list whose `[` is at `pos`.
    fn parse_list(&self, pos: usize) -> (r: Result<(Object, usize), Error>)
        requires
            pos < self.input@.len(),
        ensures
            view_result(r) == spec_parse_list(self.input@, pos as int),
            r matches Ok((_, q)) ==> pos < q <= self.input@.len(),
        decreases self.input@.len() - pos, 1int,
    {
        let s = self.input;
        let n = s.len();
        let mut items: Vec<Object> = Vec::new();
        let mut p = pos + 1;
        loop
            invariant
                s@ == self.input@,
                pos < p <= s@.len(),
                spec_parse_list(s@, pos as int) == spec_list_loop(s@, p as int, view_items(items@)),
            decreases s@.len() - p,
        {
            let p1 = consume_ws_nl(s, p);
            proof {
                lemma_consumed_to(s@, p as int, pred_ws_nl());
            }
            if p1 < s.len() && s[p1] == 93u8 {
                return Ok((Object::List(items), p1 + 1));
            }
            if p1 >= s.len() {
                return Err(Error::MissingCloser { open: 91u8, close: 93u8, open_pos: p1 });
            }
            match self.parse_any(p1) {
                Err(e) => {
                    return Err(e);
                },
                Ok((v, p2)) => {
                    let ghost before = items@;
                    items.push(v);
                    assert(items@.drop_last() == before);
                    let p3 = consume_ws_nl(s, p2);
                    proof {
                        lemma_consumed_to(s@, p2 as int, pred_ws_nl());
                    }
                    if p3 < s.len() && s[p3] == 44u8 {
                        p = p3 + 1;
                    } else if !(p3 < s.len() && s[p3] == 93u8) {
                        let c3 = if p3 < s.len() { s[p3] } else { 0u8 };
                        return Err(Error::IllegalCharacter { ch: c3, pos: p3 });
                    } else {
                        p = p3;
                    }
                },
            }
        }
    }
}

pub open spec fn view_object_of(o: &Object) -> ObjectView {
    o@
}

impl Object {
    /// Parses object notation.
    pub fn new(notation: &str) -> (r: Result<Object, Error>)
        ensures
            view_value(r) == spec_compile(notation.spec_bytes()),
    {
        ObjectSyntax::new(notation, false).compile()
    }
}

impl Key {
    /// Checks a key: it must be read as one key to the end of the text.
    pub fn try_from(value: String) -> (r: Result<Key, InvalidKey>)
        ensures
            r is Ok <==> key_end(encode_utf8(value@), 0) >= encode_utf8(value@).len(),
            r matches Ok(k) ==> k.0 == value,
            r matches Err(e) ==> e.id == value && e.pos == key_end(encode_utf8(value@), 0),
    {
        let pos = {
            let b = value.as_str().as_bytes();
            let mut cur = Cursor { raw: b, pos: 0 };
            let _ = cur.consume_key();
            if cur.pos < b.len() {
                Some(cur.pos)
            } else {
                None
            }
        };
        match pos {
            Some(pos) => Err(InvalidKey { id: value, pos }),
            None => Ok(Key(value)),
        }
    }

    /// Checks a key given as a string slice.
    pub fn try_from_str(value: &str) -> (r: Result<Key, InvalidKey>)
        ensures
            r is Ok <==> key_end(encode_utf8(value@), 0) >= encode_utf8(value@).len(),
            r matches Ok(k) ==> k.0@ == value@,
            r matches Err(e) ==> e.id@ == value@ && e.pos == key_end(encode_utf8(value@), 0),
    {
        Key::try_from(String::from_str(value))
    }
}

/// The text is read as one key to its end.
pub open spec fn is_key_text(k: Seq<char>) -> bool {
    key_end(encode_utf8(k), 0) >= encode_utf8(k).len()
}

/// The map that a list of key-value pairs stands for; a later pair for a key wins.
pub open spec fn pairs_map(s: Seq<(String, Object)>) -> Map<Seq<char>, ObjectView>
    decreases s.len(),
{
    if s.len() == 0 {
        Map::empty()
    } else {
        pairs_map(s.drop_last()).insert(s.last().0@, s.last().1@)
    }
}

impl Object {
    /// A map object from key-value pairs, each text checked as a key; fails
    /// with the first text that is not one.
    pub fn try_from_pairs(pairs: Vec<(String, Object)>) -> (r: Result<Object, InvalidKey>)
        ensures
            r is Ok <==> forall|i: int| 0 <= i < pairs@.len() ==> #[trigger] is_key_text(pairs@[i].0@),
            r matches Ok(o) ==> (o matches Object::Mapping(m) && m.wf() && m@ == pairs_map(pairs@)),
            r matches Err(e) ==> exists|i: int|
                0 <= i < pairs@.len() && !is_key_text(pairs@[i].0@) && (forall|j: int|
                    0 <= j < i ==> #[trigger] is_key_text(pairs@[j].0@)) && e.id@ == pairs@[i].0@ && e.pos
                    == key_end(encode_utf8(pairs@[i].0@), 0),
    {
        let ghost orig = pairs@;
        let mut rest = pairs;
        let mut map = ObjectMap::new();
        let mut err: Option<InvalidKey> = None;
        let ghost mut done: int = 0;
        while rest.len() > 0
            invariant_except_break
                err is None,
                rest@ == orig.subrange(done, orig.len() as int),
            invariant
                0 <= done <= orig.len(),
                map.wf(),
                map@ == pairs_map(orig.subrange(0, done)),
                forall|j: int| 0 <= j < done ==> #[trigger] is_key_text(orig[j].0@),
            ensures
                err is None ==> done == orig.len() && map.wf() && map@ == pairs_map(orig.subrange(0, done)),
                err matches Some(e) ==> done < orig.len() && !is_key_text(orig[done].0@) && e.id@
                    == orig[done].0@ && e.pos == key_end(encode_utf8(orig[done].0@), 0),
                forall|j: int| 0 <= j < done ==> #[trigger] is_key_text(orig[j].0@),
            decreases rest@.len(),
        {
            let (text, value) = rest.remove(0);
            proof {
                assert(orig[done] == (text, value));
            }
            match Key::try_from(text) {
                Err(e) => {
                    err = Some(e);
                    break;
                },
                Ok(key) => {
                    proof {
                        let sub = orig.subrange(0, done + 1);
                        assert(sub.drop_last() == orig.subrange(0, done));
                        assert(sub.last() == orig[done]);
                    }
                    map.insert(key, value);
                    proof {
                        done = done + 1;
                    }
                },
            }
        }
        if let Some(e) = err {
            return Err(e);
        }
        proof {
            assert(orig.subrange(0, done) == orig);
        }
        Ok(Object::Mapping(map))
    }
}

} // verus!
