//! The markup lexer, pass 1: a scan over the input that emits the non-plaintext
//! ("virtual") tokens.
//!
//! Each handler is proved to compute its spec function `spec_handle_*`, which
//! returns `None` exactly where the handler would panic. The scan as a whole is
//! `spec_scan`.
use vstd::prelude::*;
use vstd::utf8::valid_utf8;
use vstd::string::StringSliceAdditionalSpecFns;
use crate::chars::{key_end, spec_tld, tld_defined, Cursor, SliceExt, TapeExt};
use crate::lex::{
    DynConf, spec_is_content,
    spec_checkbox, spec_format_bits, spec_format_len, spec_numbering, CheckboxType, InlineFormat,
    ListItemKind, Numbering, SpanView, StaticConf, Token, TokenSpan, TokenView,
};
use crate::object_parse::{utf8_str, Compile};
use crate::tape::{
    consumed_to, count_indent, count_indent_defined, find_at, first_fail, is_at, is_left_clear,
    is_prefix, is_right_clear, last_match, on_byte, pgraph_poll, pgraph_reaches, pred_at, pred_dash,
    pred_is, pred_link_close, pred_not, pred_not3, pred_not_nl, pred_not_simple_ws, pred_simple_ws,
    spec_count_indent, spec_is_at, spec_is_prefix, spec_left_clear, spec_right_clear, spec_simple_ws,
    trim_bounds,
};

verus! {

/// Where the links found by `linkify` in a text start and end, by byte index,
/// with `true` for a URL and `false` for an e-mail address: the first link.
pub uninterp spec fn first_link_in(text: Seq<u8>) -> Option<(bool, int, int)>;

/// Calls `linkify::LinkFinder::links(..).next()` with a finder for URLs and
/// e-mail addresses, e-mail domains with a dot, IRIs allowed and no scheme
/// needed; returns whether the first link is a URL, and its byte range.
/// The result is named `first_link_in`; the range lies within the text.
#[verifier::external_body]
pub(crate) fn first_link(text: &str) -> (r: Option<(bool, usize, usize)>)
    ensures
        r matches Some((u, a, b)) ==> first_link_in(text.spec_bytes()) == Some((u, a as int, b as int))
            && a <= b <= text.spec_bytes().len(),
        r is None ==> first_link_in(text.spec_bytes()) is None,
{
    let mut finder = linkify::LinkFinder::new();
    finder.kinds(&[linkify::LinkKind::Email, linkify::LinkKind::Url]).email_domain_must_have_dot(
        true,
    ).url_can_be_iri(true).url_must_have_scheme(false);
    finder.links(text).next().map(
        |link| (*link.kind() == linkify::LinkKind::Url, link.start(), link.end()),
    )
}

/// A `]` at `i` directly followed by `(` or `[`.
pub fn link_close_at(raw: &[u8], ch: u8, i: usize) -> (b: bool)
    requires
        i + 1 < raw@.len(),
    ensures
        b == pred_link_close(raw@)(ch, i as int),
{
    let n = raw.len();
    let next = raw[i + 1];
    ch == 93u8 && (next == 40u8 || next == 91u8)
}

/// The state of the scanner, as values.
pub struct ScanView {
    pub tokens: Seq<SpanView>,
    pub spacing: u8,
    pub in_alt: bool,
    pub fmts: Seq<(InlineFormat, int)>,
    pub quotes: Seq<(bool, int)>,
}

pub open spec fn push_tok(st: ScanView, t: TokenView, a: int, b: int) -> ScanView {
    ScanView { tokens: st.tokens.push(SpanView { token: t, start: a, end: b }), ..st }
}

pub open spec fn with_spacing(st: ScanView, sp: u8) -> ScanView {
    ScanView { spacing: sp, ..st }
}

pub open spec fn view_spans<'a>(v: Seq<TokenSpan<'a>>) -> Seq<SpanView> {
    v.map_values(|t: TokenSpan<'a>| t@)
}

pub open spec fn view_fmts(v: Seq<(InlineFormat, usize)>) -> Seq<(InlineFormat, int)> {
    v.map_values(|f: (InlineFormat, usize)| (f.0, f.1 as int))
}

pub open spec fn view_quotes(v: Seq<(bool, usize)>) -> Seq<(bool, int)> {
    v.map_values(|f: (bool, usize)| (f.0, f.1 as int))
}

/// The open formats and quotes lie within an input of length `n`.
pub open spec fn scan_wf(st: ScanView, n: int) -> bool {
    &&& forall|i: int| 0 <= i < st.fmts.len() ==> 0 <= #[trigger] st.fmts[i].1 < n
    &&& forall|i: int| 0 <= i < st.quotes.len() ==> 0 <= #[trigger] st.quotes[i].1 < n
}

/// Inputs small enough that no position overflows.
pub open spec fn small(s: Seq<u8>) -> bool {
    s.len() <= usize::MAX / 4
}

/// Mutable state shared between the handlers during the scan.
pub struct Scanner<'a> {
    /// Virtual (non-plaintext) tokens.
    pub tokens: Vec<TokenSpan<'a>>,
    /// The number of newlines that separate two paragraphs.
    pub pgraph_spacing: u8,
    /// True if currently within alt text.
    pub in_alt_text: bool,
    /// Positions of openers not yet paired with a closer, with their format.
    pub open_fmts: Vec<(InlineFormat, usize)>,
    /// Positions of block quote openers not yet paired, with whether `"` was used.
    pub open_quotes: Vec<(bool, usize)>,
}

impl<'a> View for Scanner<'a> {
    type V = ScanView;

    open spec fn view(&self) -> ScanView {
        ScanView {
            tokens: view_spans(self.tokens@),
            spacing: self.pgraph_spacing,
            in_alt: self.in_alt_text,
            fmts: view_fmts(self.open_fmts@),
            quotes: view_quotes(self.open_quotes@),
        }
    }
}

// ---------------------------------------------------------------- spec handlers

pub open spec fn fmt_token(ty: InlineFormat, twin: int) -> TokenView {
    TokenView::InlineFormat { ty, twin_pos: twin }
}

/// Opening or closing an inline format whose cluster starts at `pos`. An opener
/// is recorded; a closer pairs with the last opener it shares a flag with (the
/// same format, or italic within bold-italic, as a basic pair). Either way the
/// cursor is left on the final byte of the cluster.
pub open spec fn spec_handle_fmt(s: Seq<u8>, st: ScanView, pos: int, fmt: InlineFormat) -> Option<(ScanView, Option<int>)> {
    let start = pos;
    let len = spec_format_len(fmt) as int;
    if spec_left_clear(s, start) && !spec_right_clear(s, pos) {
        Some((ScanView { fmts: st.fmts.push((fmt, start)), ..st }, Some(pos + len - 1)))
    } else if spec_right_clear(s, start) && st.fmts.len() > 0 && spec_format_bits(st.fmts.last().0)
        & spec_format_bits(fmt) != 0 {
        let om = st.fmts.last().0;
        let op = st.fmts.last().1;
        let st1 = ScanView { fmts: st.fmts.drop_last(), ..st };
        let olen = spec_format_len(om) as int;
        let c = spec_format_bits(fmt) & spec_format_bits(om);
        if fmt == om || c == 2 || c == 3 {
            Some((push_tok(push_tok(st1, fmt_token(om, start), op, op + len), fmt_token(om, op), pos, pos + olen), Some(pos + len - 1)))
        } else if fmt == InlineFormat::BoldItalic && om == InlineFormat::BoldItalic {
            Some(
                (
                    push_tok(
                        push_tok(
                            push_tok(
                                push_tok(st1, fmt_token(InlineFormat::Bold, start + 1), op, op + 2),
                                fmt_token(InlineFormat::Italic, start),
                                op + 2,
                                op + 3,
                            ),
                            fmt_token(InlineFormat::Italic, op + 2),
                            pos,
                            pos + 1,
                        ),
                        fmt_token(InlineFormat::Bold, op),
                        start + 1,
                        start + 3,
                    ),
                    Some(pos + len - 1),
                ),
            )
        } else if fmt == InlineFormat::Bold {
            let st2 = ScanView { fmts: st1.fmts.push((InlineFormat::Italic, op)), ..st1 };
            Some((push_tok(push_tok(st2, fmt_token(InlineFormat::Bold, start), op + 1, op + 3), fmt_token(InlineFormat::Bold, op + 1), pos, pos + 2), Some(pos + len - 1)))
        } else {
            let st2 = ScanView { fmts: st1.fmts.push((InlineFormat::Bold, op)), ..st1 };
            Some((push_tok(push_tok(st2, fmt_token(InlineFormat::Italic, start), op + 2, op + 3), fmt_token(InlineFormat::Italic, op + 2), pos, pos + 1), Some(pos + len - 1)))
        }
    } else {
        Some((st, None))
    }
}

pub open spec fn stars3() -> Seq<u8> {
    seq![42u8, 42u8, 42u8]
}

pub open spec fn stars2() -> Seq<u8> {
    seq![42u8, 42u8]
}

pub open spec fn spec_handle_star(s: Seq<u8>, st: ScanView, pos: int) -> Option<(ScanView, Option<int>)> {
    if spec_is_at(s, pos, stars3()) {
        spec_handle_fmt(s, st, pos, InlineFormat::BoldItalic)
    } else if spec_is_at(s, pos, stars2()) {
        spec_handle_fmt(s, st, pos, InlineFormat::Bold)
    } else {
        spec_handle_fmt(s, st, pos, InlineFormat::Italic)
    }
}

/// A `'` or `"` at `pos` at the start of a line: a block quote opener or closer
/// (three of them), a line quote (two), or text.
pub open spec fn spec_handle_quote(s: Seq<u8>, st: ScanView, pos: int, q: u8) -> Option<(ScanView, Option<int>)> {
    if !spec_is_prefix(s, pos) {
        Some((st, None))
    } else if spec_is_at(s, pos, seq![q, q, q]) {
        let p = pos + 3;
        if st.quotes.len() > 0 && st.quotes.last().0 == (q == 34u8) {
            let op = st.quotes.last().1;
            let st1 = ScanView { quotes: st.quotes.drop_last(), ..st };
            Some((push_tok(push_tok(st1, TokenView::BlockQuoteOpen, op, op + 3), TokenView::BlockQuoteClose, p, p + 3), Some(p)))
        } else {
            Some((ScanView { quotes: st.quotes.push((q == 34u8, pos)), ..st }, Some(p)))
        }
    } else if spec_is_at(s, pos, seq![q, q]) {
        Some((push_tok(with_spacing(st, 1), TokenView::LineQuoteMarker, pos, pos + 2), Some(pos + 2)))
    } else {
        Some((st, None))
    }
}

/// A `[` at `pos`: the start of a link or embed when a `](` or `][` follows in the paragraph.
pub open spec fn spec_handle_obrac(s: Seq<u8>, st: ScanView, pos: int) -> Option<(ScanView, Option<int>)> {
    if st.in_alt {
        Some((st, None))
    } else {
        let p = pos + 1;
        if pgraph_reaches(s, p, st.spacing, 0, pred_link_close(s), s.len() - 1) {
            None
        } else {
            match pgraph_poll(s, p, st.spacing, 0, pred_link_close(s)) {
                None => Some((st, None)),
                Some(_) => {
                    let st1 = if s[p - 1] == 33u8 {
                        push_tok(st, TokenView::EmbedMarker, p - 1, p + 1)
                    } else {
                        push_tok(st, TokenView::LinkMarker, p, p + 1)
                    };
                    Some((ScanView { in_alt: true, ..st1 }, Some(p)))
                },
            }
        }
    }
}

/// A `]` at `pos` within alt text: a link body `](..)` or alias `][..]`, whose
/// text lies between the brackets and is not empty; the alt text ends there.
pub open spec fn spec_handle_cbrac(s: Seq<u8>, st: ScanView, pos: int) -> Option<(ScanView, Option<int>)> {
    if !st.in_alt {
        Some((st, None))
    } else {
        let p = pos + 1;
        if !(p < s.len() && (s[p] == 91u8 || s[p] == 40u8)) {
            Some((st, None))
        } else {
            let stop = if s[p] == 91u8 { 93u8 } else { 41u8 };
            match pgraph_poll(s, p + 1, st.spacing, 0, on_byte(pred_is(stop))) {
                None => Some((st, None)),
                Some(q) => if q <= p + 1 {
                    Some((st, None))
                } else {
                    let t = if stop == 93u8 {
                        TokenView::LinkAliasBody { alias: s.subrange(p + 1, q) }
                    } else {
                        TokenView::LinkBody { href: s.subrange(p + 1, q) }
                    };
                    Some((ScanView { in_alt: false, ..push_tok(st, t, pos, q + 1) }, Some(q)))
                },
            }
        }
    }
}

/// The top-level domains that a link without a scheme may have.
pub open spec fn pre_icann(t: Seq<u8>) -> bool {
    t == seq![99u8, 111u8, 109u8] || t == seq![111u8, 114u8, 103u8] || t == seq![110u8, 101u8, 116u8]
        || t == seq![105u8, 110u8, 116u8] || t == seq![101u8, 100u8, 117u8] || t == seq![103u8, 111u8, 118u8]
        || t == seq![109u8, 105u8, 108u8]
}

/// The text holds `//`.
pub open spec fn has_double_slash(t: Seq<u8>) -> bool {
    exists|i: int| 0 <= i && i + 1 < t.len() && t[i] == 47u8 && #[trigger] t[i + 1] == 47u8
}

/// Whether the link that `linkify` found in `href` from `a` to `z` is taken as
/// a link: an e-mail address, a URL holding `//`, or a URL whose top-level
/// domain is one that links without a scheme may have.
pub open spec fn link_accepted(href: Seq<u8>, is_url: bool, a: int, z: int) -> bool {
    let text = href.subrange(a, z);
    !(is_url && !has_double_slash(text)) || (spec_tld(text) matches Some(t) && pre_icann(t))
}

/// A `.` at `pos`: a list continuation, a numbered list item, an inferred link, or text.
pub open spec fn spec_handle_dot(s: Seq<u8>, st: ScanView, pos: int, infer_links: bool) -> Option<(ScanView, Option<int>)> {
    if spec_is_prefix(s, pos) {
        if !count_indent_defined(s, pos) {
            None
        } else {
            let t = TokenView::ListItemMarker {
                indent: spec_count_indent(s, pos) as u8,
                kind: ListItemKind::Continuation,
            };
            Some((push_tok(with_spacing(st, 1), t, pos, pos + 1), Some(pos)))
        }
    } else if pos <= 0 {
        None
    } else if spec_is_prefix(s, pos - 1) {
        if !count_indent_defined(s, pos) {
            None
        } else {
            match spec_numbering(s[pos - 1]) {
                None => Some((st, None)),
                Some(n) => {
                    let t = TokenView::ListItemMarker {
                        indent: spec_count_indent(s, pos) as u8,
                        kind: ListItemKind::Numbered(n),
                    };
                    Some((push_tok(with_spacing(st, 1), t, pos - 1, pos + 1), Some(pos)))
                },
            }
        }
    } else if !infer_links {
        Some((st, None))
    } else {
        let b = match last_match(s, pos, s.len() as int, pred_simple_ws()) {
            Some(q) => q,
            None => pos,
        };
        let start = b + 1;
        let e = consumed_to(s, start, pred_not_simple_ws());
        let href = if e > start { s.subrange(start, e) } else { Seq::empty() };
        let emit = Some((push_tok(st, TokenView::InferredLink { href }, start, e), Some(e)));
        if !valid_utf8(href) {
            Some((st, None))
        } else {
            match first_link_in(href) {
                None => Some((st, None)),
                Some((is_url, a, z)) => {
                    let text = href.subrange(a, z);
                    if is_url && !has_double_slash(text) && !tld_defined(text) {
                        None
                    } else if link_accepted(href, is_url, a, z) {
                        emit
                    } else {
                        Some((st, None))
                    }
                },
            }
        }
    }
}

pub open spec fn all_simple_ws(t: Seq<u8>) -> bool {
    forall|i: int| 0 <= i < t.len() ==> spec_simple_ws(#[trigger] t[i])
}

/// A `-` at `pos`: a checkbox, a horizontal rule, an unordered list item, or text.
pub open spec fn spec_handle_dash(s: Seq<u8>, st: ScanView, pos: int) -> Option<(ScanView, Option<int>)> {
    let nx = pos + 1;
    if !spec_is_prefix(s, pos) {
        Some((st, None))
    } else if nx < s.len() && (s[nx] == 111u8 || s[nx] == 120u8 || s[nx] == 63u8) {
        let marker = s[nx];
        if (marker == 111u8 || marker == 120u8) && !(nx + 1 < s.len() && spec_simple_ws(s[nx + 1])) {
            Some((st, None))
        } else if !count_indent_defined(s, nx) {
            None
        } else {
            let t = TokenView::ListItemMarker {
                indent: spec_count_indent(s, nx) as u8,
                kind: ListItemKind::Checkbox(spec_checkbox(marker).unwrap()),
            };
            Some((push_tok(with_spacing(st, 1), t, nx, nx + 2), Some(nx + 1)))
        }
    } else if spec_is_at(s, pos, seq![45u8, 45u8]) {
        let j = consumed_to(s, pos, pred_dash());
        let big_p = j + 2 + (j - pos);
        let q = consumed_to(s, big_p, pred_not_nl());
        let line = if q > big_p { s.subrange(big_p, q) } else { Seq::empty() };
        if all_simple_ws(line) {
            Some((push_tok(st, TokenView::HorizontalRule, q, q + 3), Some(q - 1)))
        } else {
            Some((st, None))
        }
    } else if !count_indent_defined(s, pos) {
        None
    } else {
        let t = TokenView::ListItemMarker { indent: spec_count_indent(s, pos) as u8, kind: ListItemKind::Unordered };
        Some((push_tok(with_spacing(st, 1), t, pos, pos + 1), Some(pos)))
    }
}

/// A `=` at `pos`: a heading marker, or text.
pub open spec fn spec_handle_equals(s: Seq<u8>, st: ScanView, pos: int) -> Option<(ScanView, Option<int>)> {
    if !spec_is_prefix(s, pos) {
        Some((st, None))
    } else {
        let j = match pgraph_poll(s, pos, 1, 0, on_byte(pred_not(61u8))) {
            Some(q) => q,
            None => pos,
        };
        let depth = j - pos;
        if depth > 6 {
            Some((st, Some(j)))
        } else if j <= 0 {
            None
        } else {
            Some((push_tok(with_spacing(st, 1), TokenView::HeadingMarker { depth: depth as u8 }, pos, j), Some(j - 1)))
        }
    }
}

/// A `$` at `pos`: a math block (`$$` at a line start), inline math, or text.
pub open spec fn spec_handle_dollar(s: Seq<u8>, st: ScanView, pos: int, finance_mode: bool) -> Option<(ScanView, Option<int>)> {
    let start = pos;
    if spec_is_at(s, pos, seq![36u8, 36u8]) && !spec_is_prefix(s, pos) {
        Some((st, None))
    } else if spec_is_at(s, pos, seq![36u8, 36u8]) && first_fail(s, pos + 2, pred_not3(10u8, 36u8, 36u8)) >= s.len() {
        Some((st, None))
    } else if spec_is_at(s, pos, seq![36u8, 36u8]) && pos + 3 > first_fail(s, pos + 2, pred_not3(10u8, 36u8, 36u8)) {
        None
    } else {
        let (st1, tp) = if spec_is_at(s, pos, seq![36u8, 36u8]) {
            let f = first_fail(s, pos + 2, pred_not3(10u8, 36u8, 36u8));
            (push_tok(st, TokenView::MathBlock { body: s.subrange(pos + 3, f) }, start, f + 1), f + 2)
        } else {
            (st, pos + 1)
        };
        if finance_mode {
            Some((st1, None))
        } else {
            match pgraph_poll(s, tp, st1.spacing, 0, on_byte(pred_is(36u8))) {
                None => Some((st1, None)),
                Some(k) => Some(
                    (push_tok(st1, TokenView::InlineMath { body: s.subrange(start + 1, k) }, start, k + 1), Some(k)),
                ),
            }
        }
    }
}

pub open spec fn fence() -> Seq<u8> {
    seq![10u8, 96u8, 96u8, 96u8]
}

/// A backtick at `pos`: a code block (three at a line start), raw inline code (two),
/// inline code (one), or text. A span covers its delimiters; its body lies between them.
pub open spec fn spec_handle_btick(s: Seq<u8>, st: ScanView, pos: int) -> Option<(ScanView, Option<int>)> {
    let start = pos;
    let sp = st.spacing;
    if spec_is_at(s, pos, seq![96u8, 96u8, 96u8]) {
        if !spec_is_prefix(s, pos) {
            Some((st, None))
        } else {
            let p = pos + 3;
            let lp = consumed_to(s, p, pred_not_nl());
            let lang = if lp > p { s.subrange(p, lp) } else { Seq::empty() };
            match find_at(s, lp, fence()) {
                None => Some((st, None)),
                Some(k) => if lp + 1 > k {
                    None
                } else {
                    let t = TokenView::CodeBlock {
                        body: s.subrange(lp + 1, k),
                        lang: lang.subrange(trim_bounds(lang).0, trim_bounds(lang).1),
                    };
                    Some((push_tok(st, t, start, k + 1), Some(k + 3)))
                },
            }
        }
    } else if spec_is_at(s, pos, seq![96u8, 96u8]) {
        let p = pos + 1;
        match pgraph_poll(s, p, sp, 0, pred_at(s, seq![96u8, 96u8])) {
            None => Some((st, Some(p))),
            Some(k) => if start + 2 > k {
                None
            } else {
                Some((push_tok(st, TokenView::InlineRawCode { body: s.subrange(start + 2, k) }, start, k + 2), Some(k + 1)))
            },
        }
    } else {
        match pgraph_poll(s, pos + 1, sp, 0, on_byte(pred_is(96u8))) {
            None => Some((st, None)),
            Some(k) => Some((push_tok(st, TokenView::InlineCode { body: s.subrange(start + 1, k) }, start, k + 1), Some(k))),
        }
    }
}

/// The bodies `{..}` of a macro, from `np` on: each span covers both braces,
/// each body neither.
pub open spec fn spec_macro_bodies(s: Seq<u8>, st: ScanView, np: int) -> (ScanView, int)
    decreases s.len() - np,
{
    if 0 <= np < s.len() && s[np] == 123u8 {
        let j = first_fail(s, np, pred_not(125u8));
        if j >= s.len() {
            (st, np - 1)
        } else if j < np {
            (st, np)
        } else {
            spec_macro_bodies(s, push_tok(st, TokenView::MacroBody { body: s.subrange(np + 1, j) }, np, j + 1), j + 1)
        }
    } else {
        (st, np)
    }
}

/// A macro's configuration `[..]`, if one is at `np`, then its bodies.
pub open spec fn spec_macro_rest(s: Seq<u8>, st: ScanView, np: int) -> (ScanView, int) {
    if 0 <= np < s.len() && s[np] == 91u8 {
        let j = first_fail(s, np, pred_not(93u8));
        if j >= s.len() {
            (st, np - 1)
        } else {
            spec_macro_bodies(s, push_tok(st, TokenView::MacroConfig { body: s.subrange(np + 1, j) }, np, j + 1), j + 1)
        }
    } else {
        spec_macro_bodies(s, st, np)
    }
}

/// A `;` at `pos`: a macro invocation `;name(..)[..]{..}..`, or text. The
/// decoration `(..)` and the configuration `[..]` are each optional.
pub open spec fn spec_handle_semi(s: Seq<u8>, st: ScanView, pos: int) -> Option<(ScanView, Option<int>)> {
    if pos == s.len() - 1 {
        Some((st, None))
    } else {
        let p = pos + 1;
        let ke = key_end(s, p);
        if ke == p {
            Some((st, None))
        } else if !(ke < s.len() && (s[ke] == 40u8 || s[ke] == 91u8 || s[ke] == 123u8)) {
            Some((st, Some(ke)))
        } else {
            let st1 = push_tok(st, TokenView::MacroHandle { name: s.subrange(p, ke) }, pos, pos + (ke - p) + 1);
            if s[ke] == 40u8 {
                let j = first_fail(s, ke, pred_not(41u8));
                if j >= s.len() {
                    Some((st1, Some(ke - 1)))
                } else {
                    let st2 = push_tok(st1, TokenView::MacroDecor { body: s.subrange(ke + 1, j) }, ke, j + 1);
                    let r = spec_macro_rest(s, st2, j + 1);
                    Some((r.0, Some(r.1)))
                }
            } else {
                let r = spec_macro_rest(s, st1, ke);
                Some((r.0, Some(r.1)))
            }
        }
    }
}

/// The lexer configuration that the scan reads.
pub open spec fn default_spacing(conf: StaticConf) -> u8 {
    if conf.single_line_mode {
        1
    } else {
        2
    }
}

/// One step of the scan at `pos`: the handler for the byte there.
pub open spec fn spec_step(conf: StaticConf, s: Seq<u8>, st: ScanView, pos: int) -> Option<(ScanView, Option<int>)> {
    let ch = s[pos];
    if ch == 10u8 {
        Some((push_tok(with_spacing(st, default_spacing(conf)), TokenView::Newline, pos, pos + 1), Some(pos)))
    } else if ch == 96u8 {
        spec_handle_btick(s, st, pos)
    } else if ch == 36u8 {
        spec_handle_dollar(s, st, pos, conf.finance_mode)
    } else if ch == 45u8 {
        spec_handle_dash(s, st, pos)
    } else if ch == 46u8 {
        spec_handle_dot(s, st, pos, conf.infer_links)
    } else if ch == 42u8 {
        spec_handle_star(s, st, pos)
    } else if ch == 95u8 {
        spec_handle_fmt(s, st, pos, InlineFormat::Underline)
    } else if ch == 124u8 {
        spec_handle_fmt(s, st, pos, InlineFormat::Highlight)
    } else if ch == 126u8 {
        spec_handle_fmt(s, st, pos, InlineFormat::Strikethrough)
    } else if ch == 91u8 {
        spec_handle_obrac(s, st, pos)
    } else if ch == 93u8 {
        spec_handle_cbrac(s, st, pos)
    } else if ch == 61u8 {
        spec_handle_equals(s, st, pos)
    } else if ch == 34u8 || ch == 39u8 {
        spec_handle_quote(s, st, pos, ch)
    } else if ch == 59u8 {
        spec_handle_semi(s, st, pos)
    } else if ch == 92u8 {
        if pos == s.len() - 1 {
            Some((st, None))
        } else {
            Some((st, Some(pos + 1)))
        }
    } else if ch == 35u8 {
        let j = first_fail(s, pos, pred_not(10u8));
        if j < s.len() {
            Some((st, Some(j)))
        } else {
            Some((st, Some(pos)))
        }
    } else {
        Some((st, None))
    }
}

/// The scan from `pos` on: `None` where the scan panics or never ends.
pub open spec fn spec_scan(conf: StaticConf, s: Seq<u8>, st: ScanView, pos: int) -> Option<ScanView>
    decreases 2 * s.len() + 16 - pos,
{
    if pos < 0 || pos >= s.len() {
        Some(st)
    } else {
        match spec_step(conf, s, st, pos) {
            None => None,
            Some((st2, j)) => {
                let np = match j {
                    Some(x) => x,
                    None => pos,
                } + 1;
                if np <= pos || np > 2 * s.len() + 16 {
                    None
                } else {
                    spec_scan(conf, s, st2, np)
                }
            },
        }
    }
}

/// The state the scan starts in.
pub open spec fn initial_scan(conf: StaticConf) -> ScanView {
    ScanView {
        tokens: Seq::empty(),
        spacing: default_spacing(conf),
        in_alt: false,
        fmts: Seq::empty(),
        quotes: Seq::empty(),
    }
}

pub open spec fn opt_int(r: Option<usize>) -> Option<int> {
    match r {
        Some(x) => Some(x as int),
        None => None,
    }
}

/// A handler's outcome agrees with its spec.
pub open spec fn handled(sp: Option<(ScanView, Option<int>)>, st: ScanView, r: Option<usize>) -> bool {
    sp == Some((st, opt_int(r)))
}

pub proof fn lemma_last_match(s: Seq<u8>, pos: int, j: int, p: spec_fn(u8) -> bool)
    ensures
        last_match(s, pos, j, p) matches Some(q) ==> pos <= q < j,
    decreases j - pos,
{
    if j > pos && !p(s[j - 1]) {
        lemma_last_match(s, pos, j - 1, p);
    }
}

pub proof fn lemma_find_at(s: Seq<u8>, i: int, q: Seq<u8>)
    ensures
        find_at(s, i, q) matches Some(k) ==> i <= k && k + q.len() <= s.len() && spec_is_at(s, k, q),
    decreases s.len() - i,
{
    if 0 <= i && i + q.len() <= s.len() && !spec_is_at(s, i, q) && i < s.len() {
        lemma_find_at(s, i + 1, q);
    }
}

/// Whether the link that `linkify` found in `href` is taken as a link (see
/// `link_accepted`); `link` is whether it is a URL, and its byte range.
pub fn inferred_link_ok(href: &[u8], link: (bool, usize, usize)) -> (b: bool)
    requires
        link.1 <= link.2 <= href@.len(),
        link.0 && !has_double_slash(href@.subrange(link.1 as int, link.2 as int)) ==> tld_defined(
            href@.subrange(link.1 as int, link.2 as int),
        ),
    ensures
        b == link_accepted(href@, link.0, link.1 as int, link.2 as int),
{
    let (is_url, a, z) = link;
    let lt: &[u8] = &href[a..z];
    if is_url && !has_double_slash_exec(lt) {
        match lt.tld() {
            None => false,
            Some(t) => is_pre_icann(t),
        }
    } else {
        true
    }
}

fn has_double_slash_exec(t: &[u8]) -> (b: bool)
    ensures
        b == has_double_slash(t@),
{
    let mut i: usize = 0;
    while i < t.len() && i + 1 < t.len()
        invariant
            i <= t@.len(),
            forall|j: int| 0 <= j < i && j + 1 < t@.len() ==> !(t@[j] == 47u8 && #[trigger] t@[j + 1] == 47u8),
        decreases t@.len() - i,
    {
        if t[i] == 47u8 && t[i + 1] == 47u8 {
            return true;
        }
        i += 1;
    }
    false
}

fn is_pre_icann(t: &[u8]) -> (b: bool)
    ensures
        b == pre_icann(t@),
{
    if t.len() != 3 {
        return false;
    }
    let (a, b, c) = (t[0], t[1], t[2]);
    assert(t@ == seq![a, b, c]);
    (a == 99u8 && b == 111u8 && c == 109u8) || (a == 111u8 && b == 114u8 && c == 103u8) || (a == 110u8
        && b == 101u8 && c == 116u8) || (a == 105u8 && b == 110u8 && c == 116u8) || (a == 101u8 && b
        == 100u8 && c == 117u8) || (a == 103u8 && b == 111u8 && c == 118u8) || (a == 109u8 && b
        == 105u8 && c == 108u8)
}

fn all_simple_ws_exec(t: &[u8]) -> (b: bool)
    ensures
        b == all_simple_ws(t@),
{
    let mut i: usize = 0;
    while i < t.len()
        invariant
            i <= t@.len(),
            forall|j: int| 0 <= j < i ==> spec_simple_ws(#[trigger] t@[j]),
        decreases t@.len() - i,
    {
        if !crate::tape::simple_ws(t[i]) {
            return false;
        }
        i += 1;
    }
    true
}

// ---------------------------------------------------------------- handlers

impl<'a> Scanner<'a> {
    /// Pushes the token spanning the input between the start and end indices (exclusive).
    pub fn emit(&mut self, token: Token<'a>, start: usize, end: usize)
        ensures
            final(self)@ == push_tok(old(self)@, token@, start as int, end as int),
    {
        let ghost old_toks = self.tokens@;
        self.tokens.push(TokenSpan::new(token, start, end));
        assert(view_spans(self.tokens@) =~= view_spans(old_toks).push(
            SpanView { token: token@, start: start as int, end: end as int },
        ));
    }

    fn push_fmt(&mut self, f: InlineFormat, p: usize)
        ensures
            final(self)@ == (ScanView { fmts: old(self)@.fmts.push((f, p as int)), ..old(self)@ }),
    {
        let ghost old_f = self.open_fmts@;
        self.open_fmts.push((f, p));
        assert(view_fmts(self.open_fmts@) =~= view_fmts(old_f).push((f, p as int)));
    }

    /// Attempts to emit a token if the character cluster starting at `pos`
    /// belongs to an inline format.
    pub fn handle_fmt(&mut self, s: &'a [u8], pos: usize, fmt: InlineFormat) -> (r: Option<usize>)
        requires
            small(s@),
            pos < s@.len(),
            scan_wf(old(self)@, s@.len() as int),
        ensures
            scan_wf(final(self)@, s@.len() as int),
            handled(spec_handle_fmt(s@, old(self)@, pos as int, fmt), final(self)@, r),
    {
        let start = pos;
        let len = fmt.len();
        if is_left_clear(s, start) && !is_right_clear(s, pos) {
            self.push_fmt(fmt, start);
            return Some(pos + len - 1);
        }
        if is_right_clear(s, start) && self.open_fmts.len() > 0
            && self.open_fmts[self.open_fmts.len() - 1].0.intersects(fmt) {
            let ghost st0 = self@;
            let (open_mask, open_pos) = self.open_fmts.pop().unwrap();
            assert(view_fmts(self.open_fmts@) =~= st0.fmts.drop_last());
            assert(open_mask == st0.fmts.last().0 && open_pos == st0.fmts.last().1);
            let open_len = open_mask.len();
            let c = fmt.bits() & open_mask.bits();
            if fmt == open_mask || c == 2 || c == 3 {
                self.emit(Token::InlineFormat { ty: open_mask, twin_pos: start }, open_pos, open_pos + len);
                self.emit(Token::InlineFormat { ty: open_mask, twin_pos: open_pos }, pos, pos + open_len);
            } else if fmt == InlineFormat::BoldItalic && open_mask == InlineFormat::BoldItalic {
                self.emit(Token::InlineFormat { ty: InlineFormat::Bold, twin_pos: start + 1 }, open_pos, open_pos + 2);
                self.emit(Token::InlineFormat { ty: InlineFormat::Italic, twin_pos: start }, open_pos + 2, open_pos + 3);
                self.emit(Token::InlineFormat { ty: InlineFormat::Italic, twin_pos: open_pos + 2 }, pos, pos + 1);
                self.emit(Token::InlineFormat { ty: InlineFormat::Bold, twin_pos: open_pos }, start + 1, start + 3);
            } else if fmt == InlineFormat::Bold {
                self.push_fmt(InlineFormat::Italic, open_pos);
                self.emit(Token::InlineFormat { ty: InlineFormat::Bold, twin_pos: start }, open_pos + 1, open_pos + 3);
                self.emit(Token::InlineFormat { ty: InlineFormat::Bold, twin_pos: open_pos + 1 }, pos, pos + 2);
            } else {
                self.push_fmt(InlineFormat::Bold, open_pos);
                self.emit(Token::InlineFormat { ty: InlineFormat::Italic, twin_pos: start }, open_pos + 2, open_pos + 3);
                self.emit(Token::InlineFormat { ty: InlineFormat::Italic, twin_pos: open_pos + 2 }, pos, pos + 1);
            }
            return Some(pos + len - 1);
        }
        None
    }

    /// Resolves whether a `*` belongs to a bold token, an italic token, both, or text.
    pub fn handle_star(&mut self, s: &'a [u8], pos: usize) -> (r: Option<usize>)
        requires
            small(s@),
            pos < s@.len(),
            scan_wf(old(self)@, s@.len() as int),
        ensures
            scan_wf(final(self)@, s@.len() as int),
            handled(spec_handle_star(s@, old(self)@, pos as int), final(self)@, r),
    {
        let three = [42u8, 42u8, 42u8];
        let two = [42u8, 42u8];
        assert(three@ == stars3());
        assert(two@ == stars2());
        if is_at(s, pos, three.as_slice()) {
            self.handle_fmt(s, pos, InlineFormat::BoldItalic)
        } else if is_at(s, pos, two.as_slice()) {
            self.handle_fmt(s, pos, InlineFormat::Bold)
        } else {
            self.handle_fmt(s, pos, InlineFormat::Italic)
        }
    }

    fn set_spacing(&mut self, sp: u8)
        ensures
            final(self)@ == with_spacing(old(self)@, sp),
    {
        self.pgraph_spacing = sp;
    }

    /// Resolves whether a `'` or `"` belongs to a line quote, a block quote, or text.
    pub fn handle_quote(&mut self, s: &'a [u8], pos: usize, quote: u8) -> (r: Option<usize>)
        requires
            small(s@),
            pos < s@.len(),
            scan_wf(old(self)@, s@.len() as int),
        ensures
            scan_wf(final(self)@, s@.len() as int),
            handled(spec_handle_quote(s@, old(self)@, pos as int, quote), final(self)@, r),
    {
        if !is_prefix(s, pos) {
            return None;
        }
        let start = pos;
        let two = [quote, quote];
        let three = [quote, quote, quote];
        assert(two@ == seq![quote, quote]);
        assert(three@ == seq![quote, quote, quote]);
        if is_at(s, pos, three.as_slice()) {
            let p = pos + 3;
            let n = self.open_quotes.len();
            if n > 0 && self.open_quotes[n - 1].0 == (quote == 34u8) {
                let ghost st0 = self@;
                let (_, open_pos) = self.open_quotes.pop().unwrap();
                assert(view_quotes(self.open_quotes@) =~= st0.quotes.drop_last());
                self.emit(Token::BlockQuoteOpen, open_pos, open_pos + 3);
                self.emit(Token::BlockQuoteClose, p, p + 3);
                return Some(p);
            }
            let ghost old_q = self.open_quotes@;
            self.open_quotes.push((quote == 34u8, start));
            assert(view_quotes(self.open_quotes@) =~= view_quotes(old_q).push((quote == 34u8, start as int)));
            return Some(p);
        }
        if is_at(s, pos, two.as_slice()) {
            self.set_spacing(1);
            self.emit(Token::LineQuoteMarker, pos, pos + 2);
            return Some(pos + 2);
        }
        None
    }

    /// Resolves whether a `[` belongs to a link, an embed, or text.
    pub fn handle_obrac(&mut self, s: &'a [u8], pos: usize) -> (r: Option<usize>)
        requires
            small(s@),
            pos < s@.len(),
            scan_wf(old(self)@, s@.len() as int),
            spec_handle_obrac(s@, old(self)@, pos as int) is Some,
        ensures
            scan_wf(final(self)@, s@.len() as int),
            handled(spec_handle_obrac(s@, old(self)@, pos as int), final(self)@, r),
    {
        if self.in_alt_text {
            return None;
        }
        let p = pos + 1;
        match crate::tape::poll_link_close(s, p, self.pgraph_spacing) {
            None => None,
            Some(_) => {
                if s[p - 1] == 33u8 {
                    self.emit(Token::EmbedMarker, p - 1, p + 1);
                } else {
                    self.emit(Token::LinkMarker, p, p + 1);
                }
                self.in_alt_text = true;
                Some(p)
            },
        }
    }

    /// Resolves whether a `]` belongs to a link body, an alias body, or text.
    pub fn handle_cbrac(&mut self, s: &'a [u8], pos: usize) -> (r: Option<usize>)
        requires
            small(s@),
            pos < s@.len(),
            scan_wf(old(self)@, s@.len() as int),
        ensures
            scan_wf(final(self)@, s@.len() as int),
            handled(spec_handle_cbrac(s@, old(self)@, pos as int), final(self)@, r),
    {
        if !self.in_alt_text {
            return None;
        }
        let p = pos + 1;
        if !(p < s.len() && (s[p] == 91u8 || s[p] == 40u8)) {
            return None;
        }
        let stop = if s[p] == 91u8 { 93u8 } else { 41u8 };
        let q = crate::tape::consume_in_pgraph_until(s, p + 1, self.pgraph_spacing, stop);
        proof {
            crate::tape::lemma_pgraph_poll(s@, p + 1, self.pgraph_spacing, 0, on_byte(pred_is(stop)));
        }
        if q <= p + 1 || !(q < s.len() && s[q] == stop) {
            return None;
        }
        let body = &s[p + 1..q];
        if stop == 93u8 {
            self.emit(Token::LinkAliasBody { alias: body }, pos, q + 1);
        } else {
            self.emit(Token::LinkBody { href: body }, pos, q + 1);
        }
        self.in_alt_text = false;
        Some(q)
    }

    /// Resolves whether a `.` belongs to a list item, an inferred link, or text.
    ///
    /// URIs without a scheme must have a suitable top-level domain.
    pub fn handle_dot(&mut self, s: &'a [u8], pos: usize, infer_links: bool) -> (r: Option<usize>)
        requires
            small(s@),
            pos < s@.len(),
            scan_wf(old(self)@, s@.len() as int),
            spec_handle_dot(s@, old(self)@, pos as int, infer_links) is Some,
        ensures
            scan_wf(final(self)@, s@.len() as int),
            handled(spec_handle_dot(s@, old(self)@, pos as int, infer_links), final(self)@, r),
    {
        if is_prefix(s, pos) {
            let indent = count_indent(s, pos);
            self.emit(Token::ListItemMarker { indent, kind: ListItemKind::Continuation }, pos, pos + 1);
            self.set_spacing(1);
            return Some(pos);
        }
        let prev = s[pos - 1];
        if is_prefix(s, pos - 1) {
            let indent = count_indent(s, pos);
            match Numbering::from_marker(prev) {
                None => {
                    return None;
                },
                Some(n) => {
                    self.emit(Token::ListItemMarker { indent, kind: ListItemKind::Numbered(n) }, pos - 1, pos + 1);
                    self.set_spacing(1);
                    return Some(pos);
                },
            }
        }
        if !infer_links {
            return None;
        }
        let b = crate::tape::seek_back_simple_ws(s, pos);
        proof {
            lemma_last_match(s@, pos as int, s@.len() as int, pred_simple_ws());
        }
        let start = b + 1;
        let e = crate::tape::consume_not_simple_ws(s, start);
        proof {
            crate::tape::lemma_consumed_to(s@, start as int, pred_not_simple_ws());
        }
        let href: &'a [u8] = &s[start..e];
        assert(href@ == (if e > start { s@.subrange(start as int, e as int) } else { Seq::<u8>::empty() }));
        let text = match utf8_str(href) {
            Err(_) => {
                return None;
            },
            Ok(t) => t,
        };
        match first_link(text) {
            None => {
                return None;
            },
            Some((is_url, a, z)) => {
                if !inferred_link_ok(href, (is_url, a, z)) {
                    return None;
                }
                self.emit(Token::InferredLink { href }, start, e);
                Some(e)
            },
        }
    }

    /// Resolves whether a `-` belongs to a list item, a checkbox, a horizontal rule, or text.
    pub fn handle_dash(&mut self, s: &'a [u8], pos: usize) -> (r: Option<usize>)
        requires
            small(s@),
            pos < s@.len(),
            scan_wf(old(self)@, s@.len() as int),
            spec_handle_dash(s@, old(self)@, pos as int) is Some,
        ensures
            scan_wf(final(self)@, s@.len() as int),
            handled(spec_handle_dash(s@, old(self)@, pos as int), final(self)@, r),
    {
        if !is_prefix(s, pos) {
            return None;
        }
        let nx = pos + 1;
        if nx < s.len() && (s[nx] == 111u8 || s[nx] == 120u8 || s[nx] == 63u8) {
            let marker = s[nx];
            if (marker == 111u8 || marker == 120u8) && !(nx + 1 < s.len() && crate::tape::simple_ws(s[nx + 1])) {
                return None;
            }
            let indent = count_indent(s, nx);
            let cb = CheckboxType::from_marker(marker).unwrap();
            self.emit(Token::ListItemMarker { indent, kind: ListItemKind::Checkbox(cb) }, nx, nx + 2);
            self.set_spacing(1);
            return Some(nx + 1);
        }
        let dd = [45u8, 45u8];
        assert(dd@ == seq![45u8, 45u8]);
        if is_at(s, pos, dd.as_slice()) {
            let j = crate::tape::consume_dashes(s, pos);
            proof {
                crate::tape::lemma_consumed_to(s@, pos as int, pred_dash());
            }
            let big_p = j + 2 + (j - pos);
            let q = crate::tape::consume_line(s, big_p);
            proof {
                if big_p <= s@.len() {
                    crate::tape::lemma_consumed_to(s@, big_p as int, pred_not_nl());
                }
            }
            let line: &[u8] = if q > big_p { &s[big_p..q] } else { &s[0..0] };
            if all_simple_ws_exec(line) {
                self.emit(Token::HorizontalRule, q, q + 3);
                return Some(q - 1);
            }
            return None;
        }
        let indent = count_indent(s, pos);
        self.emit(Token::ListItemMarker { indent, kind: ListItemKind::Unordered }, pos, pos + 1);
        self.set_spacing(1);
        Some(pos)
    }

    /// Resolves whether a `=` belongs to a heading marker or text.
    pub fn handle_equals(&mut self, s: &'a [u8], pos: usize) -> (r: Option<usize>)
        requires
            small(s@),
            pos < s@.len(),
            scan_wf(old(self)@, s@.len() as int),
            spec_handle_equals(s@, old(self)@, pos as int) is Some,
        ensures
            scan_wf(final(self)@, s@.len() as int),
            handled(spec_handle_equals(s@, old(self)@, pos as int), final(self)@, r),
    {
        if !is_prefix(s, pos) {
            return None;
        }
        let j = crate::tape::consume_in_pgraph_while(s, pos, 1, 61u8);
        proof {
            crate::tape::lemma_pgraph_poll(s@, pos as int, 1, 0, on_byte(pred_not(61u8)));
        }
        let depth = j - pos;
        if depth > Token::HEADING_MAX {
            return Some(j);
        }
        self.emit(Token::HeadingMarker { depth: depth as u8 }, pos, j);
        self.set_spacing(1);
        Some(j - 1)
    }

    /// Resolves whether a `$` belongs to a math block, inline math, or text.
    pub fn handle_dollar(&mut self, s: &'a [u8], pos: usize, finance_mode: bool) -> (r: Option<usize>)
        requires
            small(s@),
            pos < s@.len(),
            scan_wf(old(self)@, s@.len() as int),
            spec_handle_dollar(s@, old(self)@, pos as int, finance_mode) is Some,
        ensures
            scan_wf(final(self)@, s@.len() as int),
            handled(spec_handle_dollar(s@, old(self)@, pos as int, finance_mode), final(self)@, r),
    {
        let start = pos;
        let mut tp = pos + 1;
        let dd = [36u8, 36u8];
        assert(dd@ == seq![36u8, 36u8]);
        if is_at(s, pos, dd.as_slice()) {
            if !is_prefix(s, pos) {
                return None;
            }
            let p = pos + 2;
            match crate::tape::seek_ch3(s, p, 10u8, 36u8, 36u8) {
                None => {
                    return None;
                },
                Some(f) => {
                    self.emit(Token::MathBlock { body: &s[p + 1..f] }, start, f + 1);
                    tp = f + 2;
                },
            }
        }
        if finance_mode {
            return None;
        }
        match crate::tape::seek_ch_in_pgraph(s, tp, self.pgraph_spacing, 36u8) {
            None => None,
            Some(k) => {
                proof {
                    crate::tape::lemma_pgraph_poll(s@, tp as int, self.pgraph_spacing, 0, on_byte(pred_is(36u8)));
                }
                self.emit(Token::InlineMath { body: &s[start + 1..k] }, start, k + 1);
                Some(k)
            },
        }
    }

    /// Resolves whether a backtick belongs to a code block, inline code, or text.
    pub fn handle_btick(&mut self, s: &'a [u8], pos: usize) -> (r: Option<usize>)
        requires
            small(s@),
            pos < s@.len(),
            scan_wf(old(self)@, s@.len() as int),
            spec_handle_btick(s@, old(self)@, pos as int) is Some,
        ensures
            scan_wf(final(self)@, s@.len() as int),
            handled(spec_handle_btick(s@, old(self)@, pos as int), final(self)@, r),
    {
        let start = pos;
        let sp = self.pgraph_spacing;
        let three = [96u8, 96u8, 96u8];
        let two = [96u8, 96u8];
        let fence_bytes = [10u8, 96u8, 96u8, 96u8];
        assert(three@ == seq![96u8, 96u8, 96u8]);
        assert(two@ == seq![96u8, 96u8]);
        assert(fence_bytes@ == fence());
        if is_at(s, pos, three.as_slice()) {
            if !is_prefix(s, pos) {
                return None;
            }
            let p = pos + 3;
            let lp = crate::tape::consume_line(s, p);
            proof {
                crate::tape::lemma_consumed_to(s@, p as int, pred_not_nl());
            }
            let lang: &'a [u8] = if lp > p { &s[p..lp] } else { &s[0..0] };
            assert(lang@ =~= (if lp > p { s@.subrange(p as int, lp as int) } else { Seq::<u8>::empty() }));
            match crate::tape::seek_at(s, lp, fence_bytes.as_slice()) {
                None => None,
                Some(k) => {
                    proof {
                        lemma_find_at(s@, lp as int, fence());
                    }
                    let body = &s[lp + 1..k];
                    self.emit(Token::CodeBlock { body, lang: crate::tape::trim_simple_ws(lang) }, start, k + 1);
                    Some(k + 3)
                },
            }
        } else if is_at(s, pos, two.as_slice()) {
            let p = pos + 1;
            match crate::tape::seek_at_in_pgraph(s, p, sp, two.as_slice()) {
                None => Some(p),
                Some(k) => {
                    proof {
                        crate::tape::lemma_pgraph_poll(s@, p as int, sp, 0, pred_at(s@, seq![96u8, 96u8]));
                    }
                    self.emit(Token::InlineRawCode { body: &s[start + 2..k] }, start, k + 2);
                    Some(k + 1)
                },
            }
        } else {
            match crate::tape::seek_ch_in_pgraph(s, pos + 1, sp, 96u8) {
                None => None,
                Some(k) => {
                    proof {
                        crate::tape::lemma_pgraph_poll(s@, pos + 1, sp, 0, on_byte(pred_is(96u8)));
                    }
                    self.emit(Token::InlineCode { body: &s[start + 1..k] }, start, k + 1);
                    Some(k)
                },
            }
        }
    }

    /// A backslash at `pos` escapes the byte after it: the escape covers both, so
    /// the handler leaves the cursor on the escaped byte and the scan goes on
    /// after it; at the last byte it does nothing.
    pub fn handle_bslash(&self, s: &'a [u8], pos: usize) -> (r: Option<usize>)
        requires
            pos < s@.len(),
            small(s@),
        ensures
            r == (if pos == s@.len() - 1 {
                None
            } else {
                Some((pos + 1) as usize)
            }),
    {
        if pos == s.len() - 1 {
            return None;
        }
        Some(pos + 1)
    }

    /// Resolves whether a `;` belongs to a macro invocation or text.
    pub fn handle_semi(&mut self, s: &'a [u8], pos: usize) -> (r: Option<usize>)
        requires
            small(s@),
            pos < s@.len(),
            scan_wf(old(self)@, s@.len() as int),
        ensures
            scan_wf(final(self)@, s@.len() as int),
            handled(spec_handle_semi(s@, old(self)@, pos as int), final(self)@, r),
    {
        if pos == s.len() - 1 {
            return None;
        }
        let p = pos + 1;
        let mut cur = Cursor { raw: s, pos: p };
        let (_, ke) = cur.consume_key();
        proof {
            crate::tape::lemma_first_fail_bounds(s@, p + 1, crate::tape::pred_key_part());
        }
        if ke == p {
            return None;
        }
        let name = &s[p..ke];
        if !(ke < s.len() && (s[ke] == 40u8 || s[ke] == 91u8 || s[ke] == 123u8)) {
            return Some(ke);
        }
        self.emit(Token::MacroHandle { name }, pos, pos + (ke - p) + 1);
        let ghost after_handle = self@;
        let mut np = ke;
        if s[ke] == 40u8 {
            match crate::tape::seek_ch(s, ke, 41u8) {
                None => {
                    return Some(ke - 1);
                },
                Some(j) => {
                    proof {
                        crate::tape::lemma_first_fail_bounds(s@, ke as int, pred_not(41u8));
                    }
                    self.emit(Token::MacroDecor { body: &s[ke + 1..j] }, ke, j + 1);
                    np = j + 1;
                },
            }
        }
        let ghost before_config = self@;
        assert(spec_handle_semi(s@, old(self)@, pos as int) == Some(
            (spec_macro_rest(s@, before_config, np as int).0, Some(spec_macro_rest(s@, before_config, np as int).1)),
        ));
        if np < s.len() && s[np] == 91u8 {
            match crate::tape::seek_ch(s, np, 93u8) {
                None => {
                    return Some(np - 1);
                },
                Some(j) => {
                    proof {
                        crate::tape::lemma_first_fail_bounds(s@, np as int, pred_not(93u8));
                    }
                    self.emit(Token::MacroConfig { body: &s[np + 1..j] }, np, j + 1);
                    np = j + 1;
                },
            }
        }
        let ghost target = spec_macro_bodies(s@, self@, np as int);
        assert(spec_handle_semi(s@, old(self)@, pos as int) == Some((target.0, Some(target.1))));
        while np < s.len() && s[np] == 123u8
            invariant
                spec_handle_semi(s@, old(self)@, pos as int) == Some((target.0, Some(target.1))),
                small(s@),
                0 < np <= s@.len(),
                scan_wf(self@, s@.len() as int),
                spec_macro_bodies(s@, self@, np as int) == target,
            decreases s@.len() - np,
        {
            match crate::tape::seek_ch(s, np, 125u8) {
                None => {
                    return Some(np - 1);
                },
                Some(j) => {
                    proof {
                        crate::tape::lemma_first_fail_bounds(s@, np as int, pred_not(125u8));
                    }
                    self.emit(Token::MacroBody { body: &s[np + 1..j] }, np, j + 1);
                    np = j + 1;
                },
            }
        }
        Some(np)
    }
}

// ---------------------------------------------------------------- ordering and filling

/// Spans in order of their start.
pub open spec fn sorted_by_start(t: Seq<SpanView>) -> bool {
    forall|i: int, j: int| 0 <= i < j < t.len() ==> t[i].start <= t[j].start
}

/// `perm` rearranges the indices `0..n`.
pub open spec fn is_perm(perm: Seq<int>, n: int) -> bool {
    &&& perm.len() == n
    &&& forall|k: int| 0 <= k < n ==> 0 <= #[trigger] perm[k] < n
    &&& forall|i: int, j: int| 0 <= i < j < n ==> perm[i] != perm[j]
}

/// `t` is `u` rearranged by `perm`.
pub open spec fn permuted(t: Seq<SpanView>, u: Seq<SpanView>, perm: Seq<int>) -> bool {
    &&& is_perm(perm, u.len() as int)
    &&& t.len() == u.len()
    &&& forall|k: int| 0 <= k < t.len() ==> t[k] == u[#[trigger] perm[k]]
}

/// Sorts spans by their start.
pub fn sort_spans<'a>(v: Vec<TokenSpan<'a>>) -> (r: (Vec<TokenSpan<'a>>, Ghost<Seq<int>>))
    ensures
        sorted_by_start(view_spans(r.0@)),
        permuted(view_spans(r.0@), view_spans(v@), r.1@),
{
    let mut out: Vec<TokenSpan<'a>> = Vec::new();
    let ghost mut perm: Seq<int> = Seq::empty();
    let n = v.len();
    let mut k: usize = 0;
    while k < n
        invariant
            n == v@.len(),
            k <= n,
            out@.len() == k,
            perm.len() == k,
            sorted_by_start(view_spans(out@)),
            forall|a: int| 0 <= a < k ==> 0 <= #[trigger] perm[a] < k,
            forall|a: int, b: int| 0 <= a < b < k ==> perm[a] != perm[b],
            forall|a: int| 0 <= a < k ==> view_spans(out@)[a] == view_spans(v@)[#[trigger] perm[a]],
        decreases n - k,
    {
        let t = v[k];
        let mut i: usize = out.len();
        while i > 0 && out[i - 1].start > t.start
            invariant
                i <= out@.len(),
                forall|a: int| i <= a < out@.len() ==> out@[a].start > t.start,
            decreases i,
        {
            i -= 1;
        }
        let ghost old_out = out@;
        out.insert(i, t);
        proof {
            assert(out@ == old_out.insert(i as int, t));
            let new_perm = perm.insert(i as int, k as int);
            assert(view_spans(out@) =~= view_spans(old_out).insert(i as int, t@));
            assert forall|a: int, b: int| 0 <= a < b < out@.len() implies view_spans(out@)[a].start
                <= view_spans(out@)[b].start by {
                if a < i && b < i {
                    assert(view_spans(old_out)[a].start <= view_spans(old_out)[b].start);
                } else if a < i && b == i {
                    if i > 0 {
                        assert(view_spans(old_out)[a].start <= view_spans(old_out)[i - 1].start);
                    }
                } else if a < i {
                    assert(view_spans(old_out)[a].start <= view_spans(old_out)[b - 1].start);
                } else if a == i {
                    assert(old_out[b - 1].start > t.start);
                } else {
                    assert(view_spans(old_out)[a - 1].start <= view_spans(old_out)[b - 1].start);
                }
            }
            assert forall|a: int| 0 <= a < k + 1 implies view_spans(out@)[a] == view_spans(v@)[#[trigger] new_perm[a]] by {
                if a < i {
                    assert(new_perm[a] == perm[a]);
                } else if a > i {
                    assert(new_perm[a] == perm[a - 1]);
                }
            }
            assert forall|a: int, b: int| 0 <= a < b < k + 1 implies new_perm[a] != new_perm[b] by {
                if a != i && b != i {
                    let pa = if a < i { a } else { a - 1 };
                    let pb = if b < i { b } else { b - 1 };
                    assert(new_perm[a] == perm[pa]);
                    assert(new_perm[b] == perm[pb]);
                } else if a == i {
                    let pb = if b < i { b } else { b - 1 };
                    assert(new_perm[b] == perm[pb]);
                } else {
                    let pa = if a < i { a } else { a - 1 };
                    assert(new_perm[a] == perm[pa]);
                }
            }
            assert forall|a: int| 0 <= a < k + 1 implies 0 <= #[trigger] new_perm[a] < k + 1 by {
                if a < i {
                    assert(new_perm[a] == perm[a]);
                } else if a > i {
                    assert(new_perm[a] == perm[a - 1]);
                }
            }
            perm = new_perm;
        }
        k += 1;
    }
    (out, Ghost(perm))
}

/// Whether the spans lie in order.
fn spans_chained<'a>(t: &Vec<TokenSpan<'a>>) -> (b: bool)
    ensures
        b == chained(view_spans(t@)),
{
    let mut k: usize = 0;
    while k < t.len()
        invariant
            k <= t@.len(),
            forall|i: int| 0 <= i < k ==> 0 <= #[trigger] view_spans(t@)[i].start <= view_spans(t@)[i].end,
            forall|i: int| 0 < i < k ==> #[trigger] view_spans(t@)[i].start >= view_spans(t@)[i - 1].end,
        decreases t@.len() - k,
    {
        let x = t[k];
        assert(view_spans(t@)[k as int] == x@);
        if x.start > x.end {
            assert(!chained(view_spans(t@))) by {
                assert(view_spans(t@)[k as int].start > view_spans(t@)[k as int].end);
            }
            return false;
        }
        if k > 0 {
            let y = t[k - 1];
            assert(view_spans(t@)[k - 1] == y@);
            if x.start < y.end {
                assert(!chained(view_spans(t@))) by {
                    assert(view_spans(t@)[k as int].start < view_spans(t@)[k - 1].end);
                }
                return false;
            }
        }
        k += 1;
    }
    true
}

/// Spans lie in order, each starting at or after the end of the one before it.
pub open spec fn chained(t: Seq<SpanView>) -> bool {
    &&& forall|i: int| 0 <= i < t.len() ==> 0 <= #[trigger] t[i].start <= t[i].end
    &&& forall|i: int| 0 < i < t.len() ==> #[trigger] t[i].start >= t[i - 1].end
}

/// The spans with plaintext spans filling the gaps between them, from `cur` on.
pub open spec fn spec_fill(t: Seq<SpanView>, i: int, cur: int) -> Seq<SpanView>
    decreases t.len() - i,
{
    if i < 0 || i >= t.len() {
        Seq::empty()
    } else {
        let gap = if t[i].start > cur {
            seq![SpanView { token: TokenView::Plaintext, start: cur, end: t[i].start }]
        } else {
            Seq::empty()
        };
        gap + seq![t[i]] + spec_fill(t, i + 1, t[i].end)
    }
}

pub proof fn lemma_fill_nonempty(t: Seq<SpanView>, i: int, cur: int)
    requires
        0 <= i < t.len(),
    ensures
        spec_fill(t, i, cur).len() > 0,
{
}

pub proof fn lemma_convert_len(t: Seq<SpanView>, i: int)
    ensures
        spec_convert(t, i).len() == t.len(),
    decreases t.len() - i,
{
    if 0 <= i < t.len() {
        let t2 = if bad_at(t, i) { t.update(i, plain_span(t[i])) } else { t };
        lemma_convert_len(t2, i + 1);
    }
}

pub open spec fn plain_span(sv: SpanView) -> SpanView {
    SpanView { token: TokenView::Plaintext, ..sv }
}

/// The first index from `j` on holding content (a link body is content).
pub open spec fn first_content(t: Seq<SpanView>, j: int) -> Option<int>
    decreases t.len() - j,
{
    if j < 0 || j >= t.len() {
        None
    } else if spec_is_content(t[j].token) {
        Some(j)
    } else {
        first_content(t, j + 1)
    }
}

/// The first index from `j` on holding content or a block quote closer.
pub open spec fn first_content_or_close(t: Seq<SpanView>, j: int) -> Option<int>
    decreases t.len() - j,
{
    if j < 0 || j >= t.len() {
        None
    } else if spec_is_content(t[j].token) || t[j].token is BlockQuoteClose {
        Some(j)
    } else {
        first_content_or_close(t, j + 1)
    }
}

/// Whether the token at `i` is malformed and read as plaintext: a marker with
/// no content after it, a link whose first content is its body, an empty code
/// or math block, or a block quote with no content before its closer.
pub open spec fn bad_at(t: Seq<SpanView>, i: int) -> bool {
    match t[i].token {
        TokenView::HeadingMarker { .. } | TokenView::LineQuoteMarker | TokenView::ListItemMarker { .. } =>
            !(i + 1 < t.len() && spec_is_content(t[i + 1].token)),
        TokenView::LinkMarker | TokenView::EmbedMarker => match first_content(t, i + 1) {
            Some(k) => t[k].token is LinkBody,
            None => false,
        },
        TokenView::CodeBlock { body, .. } => body.len() == 0,
        TokenView::MathBlock { body } => body.len() == 0,
        TokenView::BlockQuoteOpen => match first_content_or_close(t, i + 1) {
            Some(k) => !spec_is_content(t[k].token),
            None => true,
        },
        _ => false,
    }
}

/// Malformed tokens from `i` on marked as plaintext, one after the other.
pub open spec fn spec_convert(t: Seq<SpanView>, i: int) -> Seq<SpanView>
    decreases t.len() - i,
{
    if i < 0 || i >= t.len() {
        t
    } else {
        spec_convert(
            if bad_at(t, i) {
                t.update(i, plain_span(t[i]))
            } else {
                t
            },
            i + 1,
        )
    }
}

fn first_content_exec<'a>(t: &Vec<TokenSpan<'a>>, from: usize) -> (r: Option<usize>)
    requires
        from <= t@.len(),
    ensures
        opt_int(r) == first_content(view_spans(t@), from as int),
        r matches Some(k) ==> k < t@.len(),
{
    let mut j: usize = from;
    while j < t.len()
        invariant
            from <= j <= t@.len(),
            first_content(view_spans(t@), from as int) == first_content(view_spans(t@), j as int),
        decreases t@.len() - j,
    {
        if t[j].token.is_content() {
            return Some(j);
        }
        j += 1;
    }
    None
}

fn first_content_or_close_exec<'a>(t: &Vec<TokenSpan<'a>>, from: usize) -> (r: Option<usize>)
    requires
        from <= t@.len(),
    ensures
        opt_int(r) == first_content_or_close(view_spans(t@), from as int),
        r matches Some(k) ==> k < t@.len(),
{
    let mut j: usize = from;
    while j < t.len()
        invariant
            from <= j <= t@.len(),
            first_content_or_close(view_spans(t@), from as int) == first_content_or_close(view_spans(t@), j as int),
        decreases t@.len() - j,
    {
        let is_close = match t[j].token {
            Token::BlockQuoteClose => true,
            _ => false,
        };
        if t[j].token.is_content() || is_close {
            return Some(j);
        }
        j += 1;
    }
    None
}

/// `simdutf8::basic::Utf8Error`, carried by `LexerError::InvalidUtf8`.
#[verifier::external_type_specification]
#[verifier::external_body]
pub struct ExSimdUtf8Error(simdutf8::basic::Utf8Error);

#[derive(Debug)]
pub enum LexerError {
    InvalidUtf8(simdutf8::basic::Utf8Error),
}

/// Calls `simdutf8::basic::from_utf8`, the analogue of `std::str::from_utf8`:
/// it succeeds exactly on valid UTF-8.
#[verifier::external_body]
pub(crate) fn check_utf8(b: &[u8]) -> (r: Result<(), simdutf8::basic::Utf8Error>)
    ensures
        r is Ok <==> valid_utf8(b@),
{
    match simdutf8::basic::from_utf8(b) {
        Ok(_) => Ok(()),
        Err(e) => Err(e),
    }
}

/// Nonempty spans within `[0, n]` that do not overlap.
pub open spec fn tokens_tile(t: Seq<SpanView>, n: int) -> bool {
    &&& forall|i: int| 0 <= i < t.len() ==> 0 <= #[trigger] t[i].start < t[i].end <= n
    &&& forall|i: int, j: int|
        0 <= i < t.len() && 0 <= j < t.len() && i != j ==> t[i].end <= t[j].start || t[j].end <= t[i].start
}

pub open spec fn eof_span(n: int) -> SpanView {
    SpanView { token: TokenView::Eof, start: n, end: n }
}

/// Sorted, non-overlapping spans followed by the end-of-input span lie in order.
pub proof fn lemma_sorted_tiles_chain(sorted: Seq<SpanView>, t: Seq<SpanView>, perm: Seq<int>, n: int)
    requires
        sorted_by_start(sorted),
        permuted(sorted, t, perm),
        tokens_tile(t, n),
        n >= 0,
    ensures
        chained(sorted.push(eof_span(n))),
{
    let u = sorted.push(eof_span(n));
    assert forall|i: int| 0 <= i < u.len() implies 0 <= #[trigger] u[i].start <= u[i].end by {
        if i < sorted.len() {
            assert(u[i] == sorted[i]);
            assert(sorted[i] == t[perm[i]]);
        }
    }
    assert forall|i: int| 0 < i < u.len() implies #[trigger] u[i].start >= u[i - 1].end by {
        if i < sorted.len() {
            assert(sorted[i] == t[perm[i]]);
            assert(sorted[i - 1] == t[perm[i - 1]]);
            assert(perm[i] != perm[i - 1]);
        } else {
            assert(sorted[i - 1] == t[perm[i - 1]]);
        }
    }
}

/// A sorted order of the scan's tokens.
pub open spec fn virtual_order(conf: StaticConf, s: Seq<u8>, sorted: Seq<SpanView>) -> bool {
    &&& lex_scan(conf, s) is Some
    &&& sorted_by_start(sorted)
    &&& exists|perm: Seq<int>| permuted(sorted, lex_scan(conf, s).unwrap().tokens, perm)
}

/// The tokens that the lexer hands out for a sorted order of the virtual tokens.
pub open spec fn lex_output(sorted: Seq<SpanView>, n: int) -> Seq<SpanView> {
    spec_convert(spec_fill(sorted.push(eof_span(n)), 0, 0), 0).drop_last()
}

/// The scan runs to its end on the input: it neither panics nor loops.
pub open spec fn scan_runs(conf: StaticConf, s: Seq<u8>) -> bool {
    &&& small(s)
    &&& lex_scan(conf, s) is Some
}

/// The lexer runs to its end on the input: the scan runs, and each sorted order
/// of its tokens, closed by the end-of-input token, lies in order; where tokens
/// overlap, filling in the plaintext between them never ends.
pub open spec fn lex_ok(conf: StaticConf, s: Seq<u8>) -> bool {
    &&& scan_runs(conf, s)
    &&& forall|sorted: Seq<SpanView>|
        #[trigger] virtual_order(conf, s, sorted) ==> chained(sorted.push(eof_span(s.len() as int)))
}

// ---------------------------------------------------------------- the scan

/// The result of the scan over a whole input: `None` where it panics or never ends.
pub open spec fn lex_scan(conf: StaticConf, s: Seq<u8>) -> Option<ScanView> {
    spec_scan(conf, s, initial_scan(conf), 0)
}

#[derive(Debug)]
pub struct MarkupSyntax<'a> {
    /// The input text.
    pub input: &'a [u8],
    /// Dynamic configuration.
    pub dyn_conf: &'a DynConf,
    /// Static configuration.
    pub static_conf: &'a StaticConf,
}

impl<'a> MarkupSyntax<'a> {
    pub fn new(dyn_conf: &'a DynConf, static_conf: &'a StaticConf, input: &'a [u8]) -> (r: Self)
        ensures
            r.input == input,
            r.dyn_conf == dyn_conf,
            r.static_conf == static_conf,
    {
        MarkupSyntax { input, dyn_conf, static_conf }
    }

    /// The number of newlines that separate paragraphs: 1 in single-line mode, else 2.
    pub fn default_pgraph_spacing(&self) -> (n: u8)
        ensures
            n == default_spacing(*self.static_conf),
    {
        if self.static_conf.single_line_mode {
            1
        } else {
            2
        }
    }

    /// The virtual tokens sorted by position, then the end-of-input token.
    /// Where the scan's tokens tile the input, the result lies in order.
    pub fn parse_virtual_tokens(&self) -> (r: Vec<TokenSpan<'a>>)
        requires
            scan_runs(*self.static_conf, self.input@),
        ensures
            r@.len() > 0,
            virtual_order(*self.static_conf, self.input@, view_spans(r@).drop_last()),
            view_spans(r@).last() == eof_span(self.input@.len() as int),
            tokens_tile(lex_scan(*self.static_conf, self.input@).unwrap().tokens, self.input@.len() as int)
                ==> chained(view_spans(r@)),
    {
        let scan = self.scan();
        let (mut tokens, Ghost(perm)) = sort_spans(scan.tokens);
        let ghost sorted = view_spans(tokens@);
        proof {
            if tokens_tile(lex_scan(*self.static_conf, self.input@).unwrap().tokens, self.input@.len() as int) {
                lemma_sorted_tiles_chain(sorted, lex_scan(*self.static_conf, self.input@).unwrap().tokens, perm, self.input@.len() as int);
            }
        }
        let n = self.input.len();
        tokens.push(TokenSpan::new(Token::Eof, n, n));
        assert(view_spans(tokens@) =~= sorted.push(eof_span(n as int)));
        assert(view_spans(tokens@).drop_last() =~= sorted);
        tokens
    }

    /// Fills the gaps between the tokens with plaintext tokens.
    pub fn parse_text_tokens(&self, tokens: Vec<TokenSpan<'a>>) -> (r: Vec<TokenSpan<'a>>)
        requires
            chained(view_spans(tokens@)),
        ensures
            view_spans(r@) == spec_fill(view_spans(tokens@), 0, 0),
    {
        let ghost t = view_spans(tokens@);
        let mut read: usize = 0;
        let mut text_start: usize = 0;
        let mut pos: usize = 0;
        let mut result: Vec<TokenSpan<'a>> = Vec::new();
        assert(view_spans(result@) =~= Seq::<SpanView>::empty());
        while read < tokens.len()
            invariant
                t == view_spans(tokens@),
                chained(t),
                read <= t.len(),
                text_start <= pos,
                read < t.len() ==> pos <= t[read as int].start,
                read > 0 ==> text_start == t[read - 1].end,
                read == 0 ==> text_start == 0,
                view_spans(result@) + spec_fill(t, read as int, text_start as int) == spec_fill(t, 0, 0),
            decreases t.len() - read, (if read < t.len() { t[read as int].start - pos } else { 0 }),
        {
            let next = tokens[read];
            if next.start == pos {
                let ghost before = view_spans(result@);
                if pos - text_start != 0 {
                    result.push(TokenSpan::new(Token::Plaintext, text_start, pos));
                }
                result.push(next);
                proof {
                    let gap = if t[read as int].start > text_start {
                        seq![SpanView { token: TokenView::Plaintext, start: text_start as int, end: t[read as int].start }]
                    } else {
                        Seq::empty()
                    };
                    assert(view_spans(result@) =~= before + gap + seq![t[read as int]]);
                    assert(spec_fill(t, read as int, text_start as int) == gap + seq![t[read as int]]
                        + spec_fill(t, read + 1, t[read as int].end));
                    assert(view_spans(result@) + spec_fill(t, read + 1, t[read as int].end) =~= before
                        + spec_fill(t, read as int, text_start as int));
                    if read + 1 < t.len() {
                        assert(t[read + 1].start >= t[read as int].end);
                    }
                }
                read += 1;
                pos = next.end;
                text_start = pos;
            } else {
                pos += 1;
            }
        }
        assert(spec_fill(t, t.len() as int, text_start as int) =~= Seq::<SpanView>::empty());
        assert(view_spans(result@) =~= view_spans(result@) + Seq::<SpanView>::empty());
        result
    }

    /// Transforms malformed structures into plaintext: links and embeds with no
    /// text before their body, headings, list items and quotes without content,
    /// empty code and math blocks.
    pub fn convert_bad_tokens(&self, tokens: &mut Vec<TokenSpan<'a>>)
        ensures
            view_spans(final(tokens)@) == spec_convert(view_spans(old(tokens)@), 0),
    {
        let n = tokens.len();
        let mut i: usize = 0;
        while i < n
            invariant
                n == tokens@.len(),
                i <= n,
                spec_convert(view_spans(old(tokens)@), 0) == spec_convert(view_spans(tokens@), i as int),
            decreases n - i,
        {
            let ghost t = view_spans(tokens@);
            let bad = match tokens[i].token {
                Token::HeadingMarker { .. } | Token::LineQuoteMarker | Token::ListItemMarker { .. } => !(i + 1
                    < n && tokens[i + 1].token.is_content()),
                Token::LinkMarker | Token::EmbedMarker => match first_content_exec(tokens, i + 1) {
                    Some(k) => match tokens[k].token {
                        Token::LinkBody { .. } => true,
                        _ => false,
                    },
                    None => false,
                },
                Token::CodeBlock { body, .. } => body.len() == 0,
                Token::MathBlock { body } => body.len() == 0,
                Token::BlockQuoteOpen => match first_content_or_close_exec(tokens, i + 1) {
                    Some(k) => !tokens[k].token.is_content(),
                    None => true,
                },
                _ => false,
            };
            assert(bad == bad_at(t, i as int));
            if bad {
                let mut span = tokens[i];
                span.bind_plain();
                tokens.set(i, span);
                assert(view_spans(tokens@) =~= t.update(i as int, plain_span(t[i as int])));
            }
            i += 1;
        }
    }

    /// Passes 2 and 3 on the sorted virtual tokens: plaintext fills the gaps,
    /// malformed tokens become plaintext, and the end-of-input token is dropped.
    fn finish_tokens(&self, tokens: Vec<TokenSpan<'a>>) -> (r: Vec<TokenSpan<'a>>)
        requires
            view_spans(tokens@).len() > 0,
            view_spans(tokens@).last() == eof_span(self.input@.len() as int),
            chained(view_spans(tokens@)),
        ensures
            view_spans(r@) == lex_output(view_spans(tokens@).drop_last(), self.input@.len() as int),
    {
        let ghost sorted = view_spans(tokens@).drop_last();
        assert(view_spans(tokens@) =~= sorted.push(eof_span(self.input@.len() as int)));
        let mut tokens = self.parse_text_tokens(tokens);
        self.convert_bad_tokens(&mut tokens);
        let ghost before_pop = view_spans(tokens@);
        proof {
            lemma_fill_nonempty(sorted.push(eof_span(self.input@.len() as int)), 0, 0);
            lemma_convert_len(spec_fill(sorted.push(eof_span(self.input@.len() as int)), 0, 0), 0);
        }
        tokens.pop();
        assert(view_spans(tokens@) =~= before_pop.drop_last());
        tokens
    }

    /// Lexes the input as `compile` does, first checking that the sorted
    /// virtual tokens lie in order: `None` where they overlap, on which input
    /// `compile` would never end.
    pub fn compile_checked(self) -> (r: Option<Result<Vec<TokenSpan<'a>>, LexerError>>)
        requires
            (!self.static_conf.trusted_mode && !valid_utf8(self.input@)) || scan_runs(
                *self.static_conf,
                self.input@,
            ),
        ensures
            (r matches Some(Err(_))) <==> !self.static_conf.trusted_mode && !valid_utf8(self.input@),
            lex_ok(*self.static_conf, self.input@) ==> r is Some,
            r is None ==> exists|sorted: Seq<SpanView>|
                virtual_order(*self.static_conf, self.input@, sorted) && !chained(
                    sorted.push(eof_span(self.input@.len() as int)),
                ),
            r matches Some(Ok(v)) ==> exists|sorted: Seq<SpanView>|
                virtual_order(*self.static_conf, self.input@, sorted) && view_spans(v@) == lex_output(
                    sorted,
                    self.input@.len() as int,
                ),
    {
        if !self.static_conf.trusted_mode {
            match check_utf8(self.input) {
                Err(e) => {
                    return Some(Err(LexerError::InvalidUtf8(e)));
                },
                Ok(()) => {},
            }
        }
        let tokens = self.parse_virtual_tokens();
        let ghost sorted = view_spans(tokens@).drop_last();
        assert(view_spans(tokens@) =~= sorted.push(eof_span(self.input@.len() as int)));
        assert(virtual_order(*self.static_conf, self.input@, sorted));
        if !spans_chained(&tokens) {
            return None;
        }
        Some(Ok(self.finish_tokens(tokens)))
    }

    /// Pass 1: scans the input for virtual tokens, in the order they are found.
    pub fn scan(&self) -> (r: Scanner<'a>)
        requires
            small(self.input@),
            lex_scan(*self.static_conf, self.input@) is Some,
        ensures
            Some(r@) == lex_scan(*self.static_conf, self.input@),
    {
        let s = self.input;
        let conf = *self.static_conf;
        let mut scan = Scanner {
            tokens: Vec::new(),
            pgraph_spacing: self.default_pgraph_spacing(),
            in_alt_text: false,
            open_fmts: Vec::new(),
            open_quotes: Vec::new(),
        };
        assert(scan@.tokens =~= Seq::<SpanView>::empty());
        assert(scan@.fmts =~= Seq::<(InlineFormat, int)>::empty());
        assert(scan@.quotes =~= Seq::<(bool, int)>::empty());
        let mut pos: usize = 0;
        while pos < s.len()
            invariant
                small(s@),
                s@ == self.input@,
                conf == *self.static_conf,
                pos <= 2 * s@.len() + 16,
                scan_wf(scan@, s@.len() as int),
                lex_scan(conf, s@) == spec_scan(conf, s@, scan@, pos as int),
                spec_scan(conf, s@, scan@, pos as int) is Some,
            decreases 2 * s@.len() + 16 - pos,
        {
            let ch = s[pos];
            let ghost st0 = scan@;
            let jump: Option<usize> = if ch == 10u8 {
                scan.set_spacing(self.default_pgraph_spacing());
                scan.emit(Token::Newline, pos, pos + 1);
                Some(pos)
            } else if ch == 96u8 {
                scan.handle_btick(s, pos)
            } else if ch == 36u8 {
                scan.handle_dollar(s, pos, conf.finance_mode)
            } else if ch == 45u8 {
                scan.handle_dash(s, pos)
            } else if ch == 46u8 {
                scan.handle_dot(s, pos, conf.infer_links)
            } else if ch == 42u8 {
                scan.handle_star(s, pos)
            } else if ch == 95u8 {
                scan.handle_fmt(s, pos, InlineFormat::Underline)
            } else if ch == 124u8 {
                scan.handle_fmt(s, pos, InlineFormat::Highlight)
            } else if ch == 126u8 {
                scan.handle_fmt(s, pos, InlineFormat::Strikethrough)
            } else if ch == 91u8 {
                scan.handle_obrac(s, pos)
            } else if ch == 93u8 {
                scan.handle_cbrac(s, pos)
            } else if ch == 61u8 {
                scan.handle_equals(s, pos)
            } else if ch == 34u8 || ch == 39u8 {
                scan.handle_quote(s, pos, ch)
            } else if ch == 59u8 {
                scan.handle_semi(s, pos)
            } else if ch == 92u8 {
                scan.handle_bslash(s, pos)
            } else if ch == 35u8 {
                match crate::tape::seek_ch(s, pos, 10u8) {
                    Some(j) => Some(j),
                    None => Some(pos),
                }
            } else {
                None
            };
            assert(spec_step(conf, s@, st0, pos as int) == Some((scan@, opt_int(jump))));
            if let Some(j) = jump {
                pos = j;
            }
            pos = pos + 1;
        }
        scan
    }
}

impl<'a> Compile for MarkupSyntax<'a> {
    type Output = Result<Vec<TokenSpan<'a>>, LexerError>;

    /// Either the input fails the UTF-8 check, or the lexer runs to its end on it.
    open spec fn ready(&self) -> bool {
        (!self.static_conf.trusted_mode && !valid_utf8(self.input@)) || lex_ok(*self.static_conf, self.input@)
    }

    /// Lexes the input: the tokens of the markup, plaintext included.
    fn compile(self) -> (r: Result<Vec<TokenSpan<'a>>, LexerError>)
        ensures
            r is Err <==> !self.static_conf.trusted_mode && !valid_utf8(self.input@),
            r matches Ok(v) ==> exists|sorted: Seq<SpanView>|
                virtual_order(*self.static_conf, self.input@, sorted) && view_spans(v@) == lex_output(
                    sorted,
                    self.input@.len() as int,
                ),
    {
        if !self.static_conf.trusted_mode {
            match check_utf8(self.input) {
                Err(e) => {
                    return Err(LexerError::InvalidUtf8(e));
                },
                Ok(()) => {},
            }
        }
        let tokens = self.parse_virtual_tokens();
        let ghost sorted = view_spans(tokens@).drop_last();
        assert(view_spans(tokens@) =~= sorted.push(eof_span(self.input@.len() as int)));
        assert(virtual_order(*self.static_conf, self.input@, sorted));
        Ok(self.finish_tokens(tokens))
    }

}

} // verus!
