//! Character classes of object-notation keys and of markup text, and small
//! slice utilities.
use vstd::prelude::*;
use vstd::string::StringExecFns;
use vstd::utf8::{decode_utf8, valid_utf8};
use crate::tape::{consume_key_part, first_fail, pred_key_part, simple_ws, spec_simple_ws};
use crate::object_parse::{lemma_str_chars, utf8_str};

verus! {

/// A byte that may start a key: an ASCII letter or `$`.
pub open spec fn spec_key_start(c: u8) -> bool {
    (97u8 <= c <= 122u8) || (65u8 <= c <= 90u8) || c == 36u8
}

/// A byte that may continue a key: an ASCII letter, a digit, `-`, `_`, `.` or `$`.
pub open spec fn spec_key_part(c: u8) -> bool {
    (97u8 <= c <= 122u8) || (65u8 <= c <= 90u8) || (48u8 <= c <= 57u8) || c == 45u8
        || c == 95u8 || c == 46u8 || c == 36u8
}

/// Whitespace trimmed by `SliceExt::to_utf8_trimmed`: space, tab, carriage return, newline.
pub open spec fn spec_ws(c: u8) -> bool {
    spec_simple_ws(c) || c == 10u8
}

/// Character classes of bytes in object notation.
pub trait CharExt {
    /// Returns true if this byte may start an unescaped key in object notation.
    ///
    /// Keys must start with a letter or dollar sign (signalling meta-properties).
    fn is_key_start(self) -> bool;

    /// Returns true if this byte may be part of an unescaped key in object notation.
    ///
    /// Letters, digits, dashes, underscores, dots, and dollar signs are accepted.
    fn is_key_part(self) -> bool;
}

impl CharExt for u8 {
    fn is_key_start(self) -> (b: bool)
        ensures
            b == spec_key_start(self),
    {
        (97u8 <= self && self <= 122u8) || (65u8 <= self && self <= 90u8) || self == 36u8
    }

    fn is_key_part(self) -> (b: bool)
        ensures
            b == spec_key_part(self),
    {
        (97u8 <= self && self <= 122u8) || (65u8 <= self && self <= 90u8) || (48u8 <= self
            && self <= 57u8) || self == 45u8 || self == 95u8 || self == 46u8 || self == 36u8
    }
}

/// A byte that may continue a key.
pub fn is_key_part(c: u8) -> (b: bool)
    ensures
        b == spec_key_part(c),
{
    c.is_key_part()
}

/// Space, tab or carriage return.
pub fn is_simple_ws(c: u8) -> (b: bool)
    ensures
        b == spec_simple_ws(c),
{
    simple_ws(c)
}

/// The byte `x`.
pub fn is_byte(c: u8, x: u8) -> (b: bool)
    ensures
        b == (c == x),
{
    c == x
}

/// Any byte but `x`.
pub fn is_not_byte(c: u8, x: u8) -> (b: bool)
    ensures
        b == (c != x),
{
    c != x
}

/// Simple whitespace or a newline.
pub fn is_simple_ws_or_nl(c: u8) -> (b: bool)
    ensures
        b == (spec_simple_ws(c) || c == 10u8),
{
    simple_ws(c) || c == 10u8
}

/// Simple whitespace, a newline or a comma.
pub fn is_simple_ws_or_nl_or_comma(c: u8) -> (b: bool)
    ensures
        b == (spec_simple_ws(c) || c == 10u8 || c == 44u8),
{
    simple_ws(c) || c == 10u8 || c == 44u8
}

/// Any byte but a newline.
pub fn is_not_newline(c: u8) -> (b: bool)
    ensures
        b == (c != 10u8),
{
    c != 10u8
}

/// Any byte but simple whitespace.
pub fn is_not_simple_ws(c: u8) -> (b: bool)
    ensures
        b == !spec_simple_ws(c),
{
    !simple_ws(c)
}

/// A dash.
pub fn is_dash(c: u8) -> (b: bool)
    ensures
        b == (c == 45u8),
{
    c == 45u8
}

/// A cursor over a byte slice: the plain state of a `taped::Tape`.
pub struct Cursor<'a> {
    pub raw: &'a [u8],
    pub pos: usize,
}

/// Where `consume_key` leaves a cursor at `pos`: past the key there (its start
/// and every key part after it), if one starts there.
pub open spec fn key_end(s: Seq<u8>, pos: int) -> int {
    if 0 <= pos < s.len() && spec_key_start(s[pos]) {
        first_fail(s, pos + 1, pred_key_part())
    } else {
        pos
    }
}

/// Key extraction on a cursor.
pub trait TapeExt {
    /// Consumes the object notation key at the current position, returning
    /// its bounds `(start, end)`; when none starts there, the range is empty.
    fn consume_key(&mut self) -> (usize, usize);
}

impl<'a> TapeExt for Cursor<'a> {
    fn consume_key(&mut self) -> (r: (usize, usize))
        ensures
            final(self).raw == old(self).raw,
            final(self).pos == key_end(old(self).raw@, old(self).pos as int),
            r == (old(self).pos, final(self).pos),
    {
        if self.pos >= self.raw.len() || !self.raw[self.pos].is_key_start() {
            return (self.pos, self.pos);
        }
        let start = self.pos;
        let e = consume_key_part(self.raw, start + 1);
        proof {
            crate::tape::lemma_first_fail_bounds(self.raw@, start + 1, pred_key_part());
        }
        // `Tape::consume` stays put when every byte to the end passes; the key
        // then runs to the end of the input.
        self.pos = if e == start + 1 && start + 1 < self.raw.len() && self.raw[start + 1].is_key_part() {
            self.raw.len()
        } else {
            e
        };
        (start, self.pos)
    }
}

/// Byte-slice utilities.
pub trait SliceExt<'a>: Sized + View<V = Seq<u8>> {
    /// Returns the top-level domain of the link, or `None`.
    fn tld(self) -> Option<&'a [u8]>
        requires
            tld_defined(self@),
    ;

    /// Returns this slice as a UTF-8 string.
    fn to_utf8(self) -> String
        requires
            valid_utf8(self@),
    ;

    /// Returns this slice as a UTF-8 string, without leading and trailing whitespace.
    fn to_utf8_trimmed(self) -> String
        requires
            valid_utf8(trimmed(self@)),
    ;
}

/// Index of the last `.` before index `i`, or 0 when there is none.
pub open spec fn last_dot_before(s: Seq<u8>, i: int) -> int
    decreases i,
{
    if i <= 0 {
        0
    } else if s[i - 1] == 46u8 {
        i - 1
    } else {
        last_dot_before(s, i - 1)
    }
}

pub proof fn lemma_last_dot_before(s: Seq<u8>, i: int)
    requires
        i > 0,
    ensures
        0 <= last_dot_before(s, i) < i,
    decreases i,
{
    assert(last_dot_before(s, 0) == 0);
    if i > 1 && s[i - 1] != 46u8 {
        lemma_last_dot_before(s, i - 1);
    }
}

pub open spec fn pred_not_slash() -> spec_fn(u8) -> bool {
    |c: u8| c != 47u8
}

pub open spec fn pred_ws() -> spec_fn(u8) -> bool {
    |c: u8| spec_ws(c)
}

/// End of the text from `a` to `j` once trailing whitespace is peeled off.
pub open spec fn trimmed_end(s: Seq<u8>, a: int, j: int) -> int
    decreases j - a,
{
    if j <= a {
        a
    } else if spec_ws(s[j - 1]) {
        trimmed_end(s, a, j - 1)
    } else {
        j
    }
}

/// The text without leading and trailing whitespace.
pub open spec fn trimmed(s: Seq<u8>) -> Seq<u8> {
    let a = first_fail(s, 0, pred_ws());
    s.subrange(a, trimmed_end(s, a, s.len() as int))
}

/// The first `/` of a link, or the length when there is none.
pub open spec fn first_slash(s: Seq<u8>) -> int {
    first_fail(s, 0, pred_not_slash())
}

/// `tld` is defined on the link: its first `/`, if any, does not directly follow
/// the last `.` before it, nor open the link.
pub open spec fn tld_defined(s: Seq<u8>) -> bool {
    let i = first_slash(s);
    i < s.len() ==> (i >= 1 && i != last_dot_before(s, i) + 1)
}

/// The top-level domain of a link: after the last `.` before the first `/`, up
/// to that `/`; in a link without a `/`, after its last `.` up to the end. A
/// link with neither has none.
pub open spec fn spec_tld(s: Seq<u8>) -> Option<Seq<u8>> {
    let i = first_slash(s);
    if i < s.len() {
        Some(s.subrange(last_dot_before(s, i) + 1, i))
    } else if s.contains(46u8) {
        Some(s.subrange(last_dot_before(s, s.len() as int) + 1, s.len() as int))
    } else {
        None
    }
}

impl<'a> SliceExt<'a> for &'a [u8] {
    fn tld(self) -> (r: Option<&'a [u8]>)
        ensures
            match r {
                Some(t) => spec_tld(self@) == Some(t@),
                None => spec_tld(self@) is None,
            },
    {
        let mut dot_idx: usize = 0;
        let mut idx: usize = 0;
        let mut seen_dot = false;
        while idx < self.len()
            invariant
                idx <= self@.len(),
                seen_dot == self@.subrange(0, idx as int).contains(46u8),
                dot_idx == last_dot_before(self@, idx as int),
                dot_idx <= idx,
                tld_defined(self@),
                first_fail(self@, 0, pred_not_slash()) == first_fail(self@, idx as int, pred_not_slash()),
            decreases self@.len() - idx,
        {
            let c = self[idx];
            if c == 47u8 {
                assert(first_fail(self@, idx as int, pred_not_slash()) == idx);
                proof {
                    if idx > 0 {
                        lemma_last_dot_before(self@, idx as int);
                    }
                }
                return Some(&self[dot_idx + 1..idx]);
            }
            if c == 46u8 {
                dot_idx = idx;
                seen_dot = true;
            }
            proof {
                let sub = self@.subrange(0, idx + 1);
                assert(sub.drop_last() =~= self@.subrange(0, idx as int));
                assert(sub.last() == c);
                if sub.contains(46u8) && c != 46u8 {
                    let k = choose|k: int| 0 <= k < sub.len() && sub[k] == 46u8;
                    assert(self@.subrange(0, idx as int)[k] == 46u8);
                }
                if self@.subrange(0, idx as int).contains(46u8) {
                    let k = choose|k: int| 0 <= k < idx && self@.subrange(0, idx as int)[k] == 46u8;
                    assert(sub[k] == 46u8);
                }
                if c == 46u8 {
                    assert(sub[idx as int] == 46u8);
                }
            }
            idx += 1;
        }
        assert(self@.subrange(0, self@.len() as int) =~= self@);
        if seen_dot {
            proof {
                lemma_last_dot_before(self@, self@.len() as int);
            }
            Some(&self[dot_idx + 1..self.len()])
        } else {
            None
        }
    }

    fn to_utf8(self) -> (r: String)
        ensures
            r@ == decode_utf8(self@),
    {
        match utf8_str(self) {
            Ok(s) => {
                proof {
                    lemma_str_chars(s, self@);
                }
                String::from_str(s)
            },
            Err(_) => String::new(),
        }
    }

    fn to_utf8_trimmed(self) -> (r: String)
        ensures
            r@ == decode_utf8(trimmed(self@)),
    {
        let mut a: usize = 0;
        while a < self.len() && is_ws(self[a])
            invariant
                a <= self@.len(),
                first_fail(self@, 0, pred_ws()) == first_fail(self@, a as int, pred_ws()),
            decreases self@.len() - a,
        {
            a += 1;
        }
        let mut b: usize = self.len();
        while b > a && is_ws(self[b - 1])
            invariant
                a <= b <= self@.len(),
                trimmed_end(self@, a as int, self@.len() as int) == trimmed_end(self@, a as int, b as int),
            decreases b - a,
        {
            b -= 1;
        }
        let t: &[u8] = &self[a..b];
        t.to_utf8()
    }
}

/// Whitespace trimmed from text: space, tab, carriage return, newline.
pub fn is_ws(c: u8) -> (b: bool)
    ensures
        b == spec_ws(c),
{
    simple_ws(c) || c == 10u8
}

} // verus!
