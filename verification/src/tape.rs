//! Cursor operations over byte slices, performed by `taped::Tape`.
//!
//! The library keeps a cursor as a plain `(input, pos)` pair. Each function here
//! builds a `taped::Tape` at that position, makes one call, and hands back plain
//! values. Their contracts restate what `taped` 1.4.0 does, as its source shows.
use vstd::prelude::*;
use taped::{CharExt as TapedCharExt, Tape};
use taped::SliceExt as TapedSliceExt;
use crate::chars::{
    is_byte, is_dash, is_key_part, is_not_byte, is_not_newline, is_not_simple_ws, is_simple_ws,
    is_simple_ws_or_nl, is_simple_ws_or_nl_or_comma,
};
use crate::lexer::link_close_at;

verus! {

/// `taped::CharExt::is_simple_ws`: space, tab and carriage return.
pub open spec fn spec_simple_ws(c: u8) -> bool {
    c == 32u8 || c == 9u8 || c == 13u8
}

/// Predicate: simple whitespace.
pub open spec fn pred_simple_ws() -> spec_fn(u8) -> bool {
    |c: u8| spec_simple_ws(c)
}

/// Predicate: simple whitespace or newline.
pub open spec fn pred_ws_nl() -> spec_fn(u8) -> bool {
    |c: u8| spec_simple_ws(c) || c == 10u8
}

/// Predicate: simple whitespace, newline or comma.
pub open spec fn pred_ws_nl_comma() -> spec_fn(u8) -> bool {
    |c: u8| spec_simple_ws(c) || c == 10u8 || c == 44u8
}

/// Predicate: anything but a newline.
pub open spec fn pred_not_nl() -> spec_fn(u8) -> bool {
    |c: u8| c != 10u8
}

/// Predicate: a byte that may continue a key.
pub open spec fn pred_key_part() -> spec_fn(u8) -> bool {
    |c: u8| crate::chars::spec_key_part(c)
}

/// First index at or after `i` whose byte fails `p`, or the length of `s`.
pub open spec fn first_fail(s: Seq<u8>, i: int, p: spec_fn(u8) -> bool) -> int
    decreases s.len() - i,
{
    if i < 0 || i >= s.len() {
        s.len() as int
    } else if !p(s[i]) {
        i
    } else {
        first_fail(s, i + 1, p)
    }
}

/// Where `Tape::consume(pred)` leaves the cursor: at the first byte from `pos`
/// on that fails the predicate; when there is none (or the tape is exhausted)
/// the cursor does not move.
pub open spec fn consumed_to(s: Seq<u8>, pos: int, p: spec_fn(u8) -> bool) -> int {
    if 0 <= pos < s.len() && first_fail(s, pos, p) < s.len() {
        first_fail(s, pos, p)
    } else {
        pos
    }
}

/// `Tape::is_at`: the bytes from `pos` on start with `q`.
pub open spec fn spec_is_at(s: Seq<u8>, pos: int, q: Seq<u8>) -> bool {
    pos + q.len() <= s.len() && s.subrange(pos, pos + q.len()) == q
}

/// The cursor left by `consume` stays within the input, and does not go back.
pub proof fn lemma_consumed_to(s: Seq<u8>, pos: int, p: spec_fn(u8) -> bool)
    requires
        0 <= pos <= s.len(),
    ensures
        pos <= consumed_to(s, pos, p) <= s.len(),
        consumed_to(s, pos, p) < s.len() ==> !p(s[consumed_to(s, pos, p)]) || consumed_to(s, pos, p) == pos,
        consumed_to(s, pos, p) > pos ==> !p(s[consumed_to(s, pos, p)]),
        forall|k: int| pos <= k < consumed_to(s, pos, p) ==> p(s[k]),
{
    lemma_first_fail_bounds(s, pos, p);
}

pub proof fn lemma_first_fail_bounds(s: Seq<u8>, i: int, p: spec_fn(u8) -> bool)
    requires
        0 <= i,
    ensures
        i <= first_fail(s, i, p) || i > s.len(),
        first_fail(s, i, p) <= s.len(),
        first_fail(s, i, p) < s.len() ==> !p(s[first_fail(s, i, p)]),
        forall|k: int| i <= k < first_fail(s, i, p) ==> p(s[k]),
    decreases s.len() - i,
{
    if i < s.len() && p(s[i]) {
        lemma_first_fail_bounds(s, i + 1, p);
    }
}

/// Calls `taped::CharExt::is_simple_ws`, which holds for space, tab and carriage return.
#[verifier::external_body]
pub fn simple_ws(c: u8) -> (b: bool)
    ensures
        b == spec_simple_ws(c),
{
    c.is_simple_ws()
}

/// Calls `Tape::is_at`, which tells whether the bytes from `pos` start with `query`.
#[verifier::external_body]
pub fn is_at(raw: &[u8], pos: usize, query: &[u8]) -> (b: bool)
    requires
        pos <= raw@.len(),
    ensures
        b == spec_is_at(raw@, pos as int, query@),
{
    let mut t = Tape::new(raw);
    t.pos = pos;
    t.is_at(query)
}

/// Calls `Tape::consume` with the predicate "simple whitespace or newline";
/// returns where the cursor is left.
#[verifier::external_body]
pub fn consume_ws_nl(raw: &[u8], pos: usize) -> (p: usize)
    ensures
        p == consumed_to(raw@, pos as int, pred_ws_nl()),
{
    let mut t = Tape::new(raw);
    t.pos = pos;
    let _ = t.consume(|ch, _| is_simple_ws_or_nl(ch));
    t.pos
}

/// Calls `Tape::consume` with the predicate "simple whitespace, newline or comma";
/// returns where the cursor is left.
#[verifier::external_body]
pub fn consume_ws_nl_comma(raw: &[u8], pos: usize) -> (p: usize)
    ensures
        p == consumed_to(raw@, pos as int, pred_ws_nl_comma()),
{
    let mut t = Tape::new(raw);
    t.pos = pos;
    let _ = t.consume(|ch, _| is_simple_ws_or_nl_or_comma(ch));
    t.pos
}

/// Calls `Tape::consume` with the predicate "simple whitespace";
/// returns where the cursor is left.
#[verifier::external_body]
pub fn consume_simple_ws(raw: &[u8], pos: usize) -> (p: usize)
    ensures
        p == consumed_to(raw@, pos as int, pred_simple_ws()),
{
    let mut t = Tape::new(raw);
    t.pos = pos;
    let _ = t.consume(|ch, _| is_simple_ws(ch));
    t.pos
}

/// Calls `Tape::consume` with the predicate "not a newline";
/// returns where the cursor is left.
#[verifier::external_body]
pub fn consume_line(raw: &[u8], pos: usize) -> (p: usize)
    ensures
        p == consumed_to(raw@, pos as int, pred_not_nl()),
{
    let mut t = Tape::new(raw);
    t.pos = pos;
    let _ = t.consume(|ch, _| is_not_newline(ch));
    t.pos
}

/// Calls `Tape::consume` with the predicate "may continue a key";
/// returns where the cursor is left.
#[verifier::external_body]
pub fn consume_key_part(raw: &[u8], pos: usize) -> (p: usize)
    ensures
        p == consumed_to(raw@, pos as int, pred_key_part()),
{
    let mut t = Tape::new(raw);
    t.pos = pos;
    let _ = t.consume(|ch, _| is_key_part(ch));
    t.pos
}

/// Predicate: anything but simple whitespace.
pub open spec fn pred_not_simple_ws() -> spec_fn(u8) -> bool {
    |c: u8| !spec_simple_ws(c)
}

/// Predicate: a dash.
pub open spec fn pred_dash() -> spec_fn(u8) -> bool {
    |c: u8| c == 45u8
}

/// Predicate: any byte other than `c`.
pub open spec fn pred_not(c: u8) -> spec_fn(u8) -> bool {
    |b: u8| b != c
}

/// Predicate: the byte `c`.
pub open spec fn pred_is(c: u8) -> spec_fn(u8) -> bool {
    |b: u8| b == c
}

/// Predicate: any byte other than `a`, `b` and `c`.
pub open spec fn pred_not3(a: u8, b: u8, c: u8) -> spec_fn(u8) -> bool {
    |x: u8| x != a && x != b && x != c
}

/// The scan of `Tape::poll_in_pgraph`: from `i` on, the first index where `p`
/// holds, or `None` at the end of the input or once `spacing` newlines in a row
/// have been met; `nl` counts the newlines in a row before `i`.
pub open spec fn pgraph_poll(s: Seq<u8>, i: int, spacing: u8, nl: int, p: spec_fn(u8, int) -> bool) -> Option<int>
    decreases s.len() - i,
{
    if i < 0 || i >= s.len() {
        None
    } else {
        let nl2 = if s[i] == 10u8 { nl + 1 } else { 0 };
        if s[i] == 10u8 && nl2 >= spacing {
            None
        } else if p(s[i], i) {
            Some(i)
        } else {
            pgraph_poll(s, i + 1, spacing, nl2, p)
        }
    }
}

/// Whether the scan of `pgraph_poll` evaluates its predicate at index `k`.
pub open spec fn pgraph_reaches(s: Seq<u8>, i: int, spacing: u8, nl: int, p: spec_fn(u8, int) -> bool, k: int) -> bool
    decreases s.len() - i,
{
    if i < 0 || i >= s.len() {
        false
    } else {
        let nl2 = if s[i] == 10u8 { nl + 1 } else { 0 };
        if s[i] == 10u8 && nl2 >= spacing {
            false
        } else if i == k {
            true
        } else if p(s[i], i) {
            false
        } else {
            pgraph_reaches(s, i + 1, spacing, nl2, p, k)
        }
    }
}

pub proof fn lemma_pgraph_poll(s: Seq<u8>, i: int, spacing: u8, nl: int, p: spec_fn(u8, int) -> bool)
    requires
        0 <= i,
    ensures
        pgraph_poll(s, i, spacing, nl, p) matches Some(j) ==> i <= j < s.len() && p(s[j], j),
    decreases s.len() - i,
{
    if i < s.len() {
        let nl2 = if s[i] == 10u8 { nl + 1 } else { 0 };
        lemma_pgraph_poll(s, i + 1, spacing, nl2, p);
    }
}

/// Predicate with the byte only.
pub open spec fn on_byte(p: spec_fn(u8) -> bool) -> spec_fn(u8, int) -> bool {
    |c: u8, i: int| p(c)
}

/// Predicate: the bytes from the index on start with `q`.
pub open spec fn pred_at(s: Seq<u8>, q: Seq<u8>) -> spec_fn(u8, int) -> bool {
    |c: u8, i: int| spec_is_at(s, i, q)
}

/// Predicate: a `]` directly followed by `(` or `[`.
pub open spec fn pred_link_close(s: Seq<u8>) -> spec_fn(u8, int) -> bool {
    |c: u8, i: int| c == 93u8 && (s[i + 1] == 40u8 || s[i + 1] == 91u8)
}

/// No byte other than simple whitespace between `i` and the newline before it,
/// or the start of the input.
pub open spec fn line_prefix(s: Seq<u8>, i: int) -> bool
    decreases i,
{
    if i <= 0 {
        true
    } else if s[i - 1] == 10u8 {
        true
    } else if !spec_simple_ws(s[i - 1]) {
        false
    } else {
        line_prefix(s, i - 1)
    }
}

/// `Tape::is_prefix`: the byte at `pos` opens its line, up to simple whitespace.
pub open spec fn spec_is_prefix(s: Seq<u8>, pos: int) -> bool {
    0 <= pos < s.len() && line_prefix(s, pos)
}

/// `Tape::is_left_clear`.
pub open spec fn spec_left_clear(s: Seq<u8>, pos: int) -> bool {
    pos == 0 || pos - 1 >= s.len() || spec_simple_ws(s[pos - 1])
}

/// `Tape::is_right_clear`.
pub open spec fn spec_right_clear(s: Seq<u8>, pos: int) -> bool {
    pos + 1 >= s.len() || spec_simple_ws(s[pos + 1])
}

/// The last index in `[pos, j)` holding a byte that satisfies `p`.
pub open spec fn last_match(s: Seq<u8>, pos: int, j: int, p: spec_fn(u8) -> bool) -> Option<int>
    decreases j - pos,
{
    if j <= pos {
        None
    } else if p(s[j - 1]) {
        Some(j - 1)
    } else {
        last_match(s, pos, j - 1, p)
    }
}

/// Number of bytes equal to `b` among the first `n` of `s`.
pub open spec fn count_byte(s: Seq<u8>, n: int, b: u8) -> int
    decreases n,
{
    if n <= 0 {
        0
    } else {
        count_byte(s, n - 1, b) + if s[n - 1] == b { 1int } else { 0int }
    }
}

/// `Tape::count_indent` does not panic at `pos`: no newline follows the cursor
/// (a newline at the cursor itself aside), and the counts fit in a byte.
pub open spec fn count_indent_defined(s: Seq<u8>, pos: int) -> bool {
    pos >= s.len() || match last_match(s, pos, s.len() as int, pred_is(10u8)) {
        Some(q) => q == pos,
        None => count_byte(s, pos, 9u8) <= 255 && count_byte(s, pos, 32u8) <= 255
            && count_byte(s, pos, 9u8) + count_byte(s, pos, 32u8) / 4 <= 255,
    }
}

/// `Tape::count_indent`: tabs plus spaces over four, counted from the start of
/// the input when no newline is at or after the cursor.
pub open spec fn spec_count_indent(s: Seq<u8>, pos: int) -> int {
    if pos >= s.len() {
        0
    } else {
        match last_match(s, pos, s.len() as int, pred_is(10u8)) {
            Some(_) => 0,
            None => count_byte(s, pos, 9u8) + count_byte(s, pos, 32u8) / 4,
        }
    }
}

/// First index at or after `i` whose bytes start with `q`.
pub open spec fn find_at(s: Seq<u8>, i: int, q: Seq<u8>) -> Option<int>
    decreases s.len() - i,
{
    if i < 0 || i + q.len() > s.len() {
        None
    } else if spec_is_at(s, i, q) {
        Some(i)
    } else if i >= s.len() {
        None
    } else {
        find_at(s, i + 1, q)
    }
}

/// Simple whitespace peeled off both ends: the kept range.
pub open spec fn trim_bounds(t: Seq<u8>) -> (int, int) {
    let a = first_fail(t, 0, pred_simple_ws());
    (a, simple_trimmed_end(t, a, t.len() as int))
}

pub open spec fn simple_trimmed_end(s: Seq<u8>, a: int, j: int) -> int
    decreases j - a,
{
    if j <= a {
        a
    } else if spec_simple_ws(s[j - 1]) {
        simple_trimmed_end(s, a, j - 1)
    } else {
        j
    }
}

/// Calls `Tape::is_left_clear`: whether the byte before `pos` is simple whitespace,
/// or there is none.
#[verifier::external_body]
pub fn is_left_clear(raw: &[u8], pos: usize) -> (b: bool)
    ensures
        b == spec_left_clear(raw@, pos as int),
{
    let t = Tape::new(raw);
    t.is_left_clear(pos)
}

/// Calls `Tape::is_right_clear`: whether the byte after `pos` is simple whitespace,
/// or there is none.
#[verifier::external_body]
pub fn is_right_clear(raw: &[u8], pos: usize) -> (b: bool)
    requires
        pos < usize::MAX,
    ensures
        b == spec_right_clear(raw@, pos as int),
{
    let t = Tape::new(raw);
    t.is_right_clear(pos)
}

/// Calls `Tape::is_prefix`: whether only simple whitespace stands between `pos`
/// and the newline before it (or the start); false out of bounds.
#[verifier::external_body]
pub fn is_prefix(raw: &[u8], pos: usize) -> (b: bool)
    ensures
        b == spec_is_prefix(raw@, pos as int),
{
    let t = Tape::new(raw);
    t.is_prefix(pos)
}

/// Calls `Tape::poll_in_pgraph` with the predicate "a `]` directly followed by
/// `(` or `[`", which reads the byte after each byte it looks at.
#[verifier::external_body]
pub fn poll_link_close(raw: &[u8], pos: usize, spacing: u8) -> (r: Option<usize>)
    requires
        !pgraph_reaches(raw@, pos as int, spacing, 0, pred_link_close(raw@), raw@.len() - 1),
    ensures
        r == (match pgraph_poll(raw@, pos as int, spacing, 0, pred_link_close(raw@)) {
            Some(j) => Some(j as usize),
            None => None,
        }),
{
    let mut t = Tape::new(raw);
    t.pos = pos;
    t.poll_in_pgraph(spacing, |ch, i| link_close_at(raw, ch, i))
}

/// Calls `Tape::consume_in_pgraph` with the predicate "not `stop`"; returns where
/// the cursor is left: at the first `stop` within the paragraph, else unmoved.
#[verifier::external_body]
pub fn consume_in_pgraph_until(raw: &[u8], pos: usize, spacing: u8, stop: u8) -> (p: usize)
    ensures
        p == (match pgraph_poll(raw@, pos as int, spacing, 0, on_byte(pred_is(stop))) {
            Some(j) => j,
            None => pos as int,
        }),
{
    let mut t = Tape::new(raw);
    t.pos = pos;
    let _ = t.consume_in_pgraph(spacing, |ch, _| is_not_byte(ch, stop));
    t.pos
}

/// Calls `Tape::consume_in_pgraph` with the predicate "is `c`"; returns where
/// the cursor is left: at the first other byte within the paragraph, else unmoved.
#[verifier::external_body]
pub fn consume_in_pgraph_while(raw: &[u8], pos: usize, spacing: u8, c: u8) -> (p: usize)
    ensures
        p == (match pgraph_poll(raw@, pos as int, spacing, 0, on_byte(pred_not(c))) {
            Some(j) => j,
            None => pos as int,
        }),
{
    let mut t = Tape::new(raw);
    t.pos = pos;
    let _ = t.consume_in_pgraph(spacing, |ch, _| is_byte(ch, c));
    t.pos
}

/// Calls `Tape::seek_ch_in_pgraph`: the first `c` from `pos` within the paragraph.
#[verifier::external_body]
pub fn seek_ch_in_pgraph(raw: &[u8], pos: usize, spacing: u8, c: u8) -> (r: Option<usize>)
    ensures
        r == (match pgraph_poll(raw@, pos as int, spacing, 0, on_byte(pred_is(c))) {
            Some(j) => Some(j as usize),
            None => None,
        }),
{
    let mut t = Tape::new(raw);
    t.pos = pos;
    if t.seek_ch_in_pgraph(spacing, c) {
        Some(t.pos)
    } else {
        None
    }
}

/// Calls `Tape::seek_at_in_pgraph`: the first index from `pos` within the
/// paragraph whose bytes start with `query`.
#[verifier::external_body]
pub fn seek_at_in_pgraph(raw: &[u8], pos: usize, spacing: u8, query: &[u8]) -> (r: Option<usize>)
    ensures
        r == (match pgraph_poll(raw@, pos as int, spacing, 0, pred_at(raw@, query@)) {
            Some(j) => Some(j as usize),
            None => None,
        }),
{
    let mut t = Tape::new(raw);
    t.pos = pos;
    if t.seek_at_in_pgraph(spacing, query) {
        Some(t.pos)
    } else {
        None
    }
}

/// Calls `Tape::seek_ch`: the first `c` at or after `pos`.
#[verifier::external_body]
pub fn seek_ch(raw: &[u8], pos: usize, c: u8) -> (r: Option<usize>)
    requires
        pos <= raw@.len(),
    ensures
        r == (if first_fail(raw@, pos as int, pred_not(c)) < raw@.len() {
            Some(first_fail(raw@, pos as int, pred_not(c)) as usize)
        } else {
            None
        }),
{
    let mut t = Tape::new(raw);
    t.pos = pos;
    if t.seek_ch(c) {
        Some(t.pos)
    } else {
        None
    }
}

/// Calls `Tape::seek_ch3`: the first of `a`, `b` or `c` at or after `pos`.
#[verifier::external_body]
pub fn seek_ch3(raw: &[u8], pos: usize, a: u8, b: u8, c: u8) -> (r: Option<usize>)
    requires
        pos <= raw@.len(),
    ensures
        r == (if first_fail(raw@, pos as int, pred_not3(a, b, c)) < raw@.len() {
            Some(first_fail(raw@, pos as int, pred_not3(a, b, c)) as usize)
        } else {
            None
        }),
{
    let mut t = Tape::new(raw);
    t.pos = pos;
    if t.seek_ch3(a, b, c) {
        Some(t.pos)
    } else {
        None
    }
}

/// Calls `Tape::seek_at`: the first index at or after `pos` whose bytes start with `query`.
#[verifier::external_body]
pub fn seek_at(raw: &[u8], pos: usize, query: &[u8]) -> (r: Option<usize>)
    requires
        pos <= raw@.len(),
        query@.len() > 0,
    ensures
        r == (match find_at(raw@, pos as int, query@) {
            Some(j) => Some(j as usize),
            None => None,
        }),
{
    let mut t = Tape::new(raw);
    t.pos = pos;
    if t.seek_at(query) {
        Some(t.pos)
    } else {
        None
    }
}

/// Calls `Tape::count_indent`, which counts tabs, and spaces divided by four,
/// from the last newline at or after the cursor (taped 1.4.0 searches forward),
/// or from the start of the input when there is none; it panics when that
/// newline lies after the cursor, or when a count overflows a byte.
#[verifier::external_body]
pub fn count_indent(raw: &[u8], pos: usize) -> (n: u8)
    requires
        count_indent_defined(raw@, pos as int),
    ensures
        n == spec_count_indent(raw@, pos as int),
{
    let mut t = Tape::new(raw);
    t.pos = pos;
    t.count_indent()
}

/// Calls `Tape::seek_back` with the predicate "simple whitespace"; returns where
/// the cursor is left. taped 1.4.0 searches the bytes at and after the cursor,
/// from the end, so the cursor moves to the last simple whitespace from `pos` on.
#[verifier::external_body]
pub fn seek_back_simple_ws(raw: &[u8], pos: usize) -> (p: usize)
    ensures
        p == (match last_match(raw@, pos as int, raw@.len() as int, pred_simple_ws()) {
            Some(q) => q,
            None => pos as int,
        }),
{
    let mut t = Tape::new(raw);
    t.pos = pos;
    let _ = t.seek_back(|ch, _| is_simple_ws(ch));
    t.pos
}

/// Calls `Tape::consume` with the predicate "not simple whitespace";
/// returns where the cursor is left.
#[verifier::external_body]
pub fn consume_not_simple_ws(raw: &[u8], pos: usize) -> (p: usize)
    ensures
        p == consumed_to(raw@, pos as int, pred_not_simple_ws()),
{
    let mut t = Tape::new(raw);
    t.pos = pos;
    let _ = t.consume(|ch, _| is_not_simple_ws(ch));
    t.pos
}

/// Calls `Tape::consume` with the predicate "a dash"; returns where the cursor is left.
#[verifier::external_body]
pub fn consume_dashes(raw: &[u8], pos: usize) -> (p: usize)
    ensures
        p == consumed_to(raw@, pos as int, pred_dash()),
{
    let mut t = Tape::new(raw);
    t.pos = pos;
    let _ = t.consume(|ch, _| is_dash(ch));
    t.pos
}

/// Calls `taped::SliceExt::trim_simple_ws`, which peels simple whitespace off
/// both ends of a slice.
#[verifier::external_body]
pub fn trim_simple_ws(t: &[u8]) -> (r: &[u8])
    ensures
        r@ == t@.subrange(trim_bounds(t@).0, trim_bounds(t@).1),
{
    t.trim_simple_ws()
}

} // verus!
