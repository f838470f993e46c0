//! Properties of the library as a whole, over the spec functions that the
//! operations' contracts use.
use vstd::prelude::*;
use vstd::utf8::encode_utf8_decode_utf8;
use crate::format::{
    bytes_lt, entry_order, first_dot, has_prefix, indent, indices, key_bytes, key_chars, lemma_min_pos, min_pos,
    pretty, pretty_from, pretty_scope, scope_end, scope_of, sorted_order,
};
use crate::object::{distinct_keys, ErrorView, Key, Object, ObjectMap, ObjectView};
use crate::object_parse::{spec_compile, spec_parse_any};
use crate::roundtrip::{lemma_parse_text, lemma_parse_top_number, plain, plain_top, text_bytes};
use crate::grammar::{
    inline_token_choice, kind_at, spec_block_quote, spec_format, spec_heading, spec_line_element,
    spec_line_quote, spec_para_loop, spec_paragraph,
};
use crate::ast::{branch_view, leaf_view, AstView, NodeMetadata, RuleKind};
use crate::lex::{spec_kind, InlineFormat, SpanView, StaticConf, TokenKind, TokenView};
use crate::lexer::{
    bad_at, chained, eof_span, lex_ok, lex_output, lex_scan, plain_span, scan_runs,
    spec_convert, spec_fill, spec_macro_bodies, spec_scan, spec_step, virtual_order, ScanView,
    initial_scan, spec_handle_fmt, stars2, stars3,
};
use crate::lex::spec_format_bits;
use crate::tape::{spec_is_at, spec_left_clear, spec_right_clear};
use crate::visit::{format_shape, heading_shape, html_format_close, html_format_open, md_format_close, md_format_mark};

verus! {

// ---------------------------------------------------------------- maps

/// After `ObjectMap::insert(k, v)`, `ObjectMap::get(k)` finds `v`, and every
/// other key keeps its presence and value.
pub proof fn law_map_get_after_insert(m: Map<Seq<char>, ObjectView>, k: Seq<char>, v: ObjectView, other: Seq<char>)
    ensures
        m.insert(k, v).contains_key(k),
        m.insert(k, v)[k] == v,
        other != k ==> (m.insert(k, v).contains_key(other) <==> m.contains_key(other)),
        other != k && m.contains_key(other) ==> m.insert(k, v)[other] == m[other],
{
}

// ---------------------------------------------------------------- text

/// The one-line text of an object is read back by the parser as the same
/// object, to its last byte, when the object is a number standing alone whose
/// literal reads back, or holds no numbers (a number runs to the end of its
/// line, so none can stand inside a list or map), its strings hold no quote,
/// backslash or newline, and its maps have distinct keys that the parser reads
/// as keys.
pub proof fn law_text_parses_back(o: Object)
    requires
        plain_top(o),
    ensures
        spec_parse_any(text_bytes(o), 0) == Ok::<_, ErrorView>((o@, text_bytes(o).len() as int)),
        spec_compile(text_bytes(o)) == Ok::<_, ErrorView>(o@),
{
    if plain(o) {
        assert(text_bytes(o).subrange(0, text_bytes(o).len() as int) =~= text_bytes(o));
        lemma_parse_text(o, text_bytes(o), 0);
    } else {
        match o {
            Object::Number(n) => {
                lemma_parse_top_number(n);
            },
            _ => {},
        }
    }
}

// ---------------------------------------------------------------- key order

proof fn lemma_bytes_lt_irreflexive(a: Seq<u8>)
    ensures
        !bytes_lt(a, a),
    decreases a.len(),
{
    if a.len() > 0 {
        lemma_bytes_lt_irreflexive(a.drop_first());
    }
}

proof fn lemma_bytes_lt_asymmetric(a: Seq<u8>, b: Seq<u8>)
    ensures
        bytes_lt(a, b) ==> !bytes_lt(b, a),
    decreases a.len(),
{
    if a.len() > 0 && b.len() > 0 && a[0] == b[0] {
        lemma_bytes_lt_asymmetric(a.drop_first(), b.drop_first());
    }
}

proof fn lemma_bytes_lt_transitive(a: Seq<u8>, b: Seq<u8>, c: Seq<u8>)
    requires
        bytes_lt(a, b),
        bytes_lt(b, c),
    ensures
        bytes_lt(a, c),
    decreases a.len(),
{
    if a.len() > 0 && b.len() > 0 && c.len() > 0 && a[0] == b[0] && b[0] == c[0] {
        lemma_bytes_lt_transitive(a.drop_first(), b.drop_first(), c.drop_first());
    }
}

proof fn lemma_bytes_lt_total(a: Seq<u8>, b: Seq<u8>)
    requires
        a != b,
    ensures
        bytes_lt(a, b) || bytes_lt(b, a),
    decreases a.len(),
{
    if a.len() > 0 && b.len() > 0 && a[0] == b[0] {
        assert(a.drop_first() != b.drop_first()) by {
            if a.drop_first() == b.drop_first() {
                assert(a =~= seq![a[0]] + a.drop_first());
                assert(b =~= seq![b[0]] + b.drop_first());
            }
        }
        lemma_bytes_lt_total(a.drop_first(), b.drop_first());
    } else if a.len() == 0 && b.len() == 0 {
        assert(a =~= b);
    }
}

/// Distinct keys have distinct bytes.
proof fn lemma_key_bytes_distinct(es: Seq<(Key, Object)>, i: int, j: int)
    requires
        distinct_keys(es),
        0 <= i < es.len(),
        0 <= j < es.len(),
        i != j,
    ensures
        key_bytes(es, i) != key_bytes(es, j),
{
    encode_utf8_decode_utf8(es[i].0.0@);
    encode_utf8_decode_utf8(es[j].0.0@);
}

/// The entry at `min_pos` has a key no greater than any other in `rem`.
proof fn lemma_min_pos_least(es: Seq<(Key, Object)>, rem: Seq<int>, k: int)
    requires
        rem.len() > 0,
        0 <= k < rem.len(),
    ensures
        !bytes_lt(key_bytes(es, rem[k]), key_bytes(es, rem[min_pos(es, rem)])),
    decreases rem.len(),
{
    lemma_min_pos(es, rem);
    if rem.len() > 1 {
        let r = rem.drop_last();
        lemma_min_pos(es, r);
        let m = min_pos(es, r);
        if k < rem.len() - 1 {
            lemma_min_pos_least(es, r, k);
            assert(r[k] == rem[k]);
            assert(r[m] == rem[m]);
            if bytes_lt(key_bytes(es, rem.last()), key_bytes(es, rem[m])) {
                if bytes_lt(key_bytes(es, rem[k]), key_bytes(es, rem.last())) {
                    lemma_bytes_lt_transitive(key_bytes(es, rem[k]), key_bytes(es, rem.last()), key_bytes(es, rem[m]));
                }
            }
        } else {
            if !bytes_lt(key_bytes(es, rem.last()), key_bytes(es, rem[m])) {
            } else {
                lemma_bytes_lt_irreflexive(key_bytes(es, rem.last()));
            }
        }
    } else {
        lemma_bytes_lt_irreflexive(key_bytes(es, rem[0]));
    }
}

/// Indices within range, none twice.
pub open spec fn distinct_in(rem: Seq<int>, n: int) -> bool {
    &&& forall|k: int| 0 <= k < rem.len() ==> 0 <= #[trigger] rem[k] < n
    &&& forall|i: int, j: int| 0 <= i < j < rem.len() ==> rem[i] != rem[j]
}

pub(crate) proof fn lemma_sorted_order(es: Seq<(Key, Object)>, rem: Seq<int>)
    requires
        distinct_keys(es),
        distinct_in(rem, es.len() as int),
    ensures
        sorted_order(es, rem).len() == rem.len(),
        distinct_in(sorted_order(es, rem), es.len() as int),
        forall|x: int| #[trigger] sorted_order(es, rem).contains(x) <==> rem.contains(x),
        forall|i: int, j: int|
            0 <= i < j < rem.len() ==> bytes_lt(
                key_bytes(es, #[trigger] sorted_order(es, rem)[i]),
                key_bytes(es, #[trigger] sorted_order(es, rem)[j]),
            ),
    decreases rem.len(),
{
    if rem.len() > 0 {
        lemma_min_pos(es, rem);
        let m = min_pos(es, rem);
        let rest = rem.remove(m);
        assert(distinct_in(rest, es.len() as int)) by {
            assert forall|i: int, j: int| 0 <= i < j < rest.len() implies rest[i] != rest[j] by {
                let a = if i < m { i } else { i + 1 };
                let b = if j < m { j } else { j + 1 };
                assert(rest[i] == rem[a]);
                assert(rest[j] == rem[b]);
            }
            assert forall|k: int| 0 <= k < rest.len() implies 0 <= #[trigger] rest[k] < es.len() by {
                let a = if k < m { k } else { k + 1 };
                assert(rest[k] == rem[a]);
            }
        }
        lemma_sorted_order(es, rest);
        let s = sorted_order(es, rem);
        let t = sorted_order(es, rest);
        assert(s == seq![rem[m]] + t);
        assert forall|x: int| #[trigger] rest.contains(x) <==> (rem.contains(x) && x != rem[m]) by {
            if rest.contains(x) {
                let k = choose|k: int| 0 <= k < rest.len() && rest[k] == x;
                let a = if k < m { k } else { k + 1 };
                assert(rest[k] == rem[a]);
                assert(a != m);
            }
            if rem.contains(x) && x != rem[m] {
                let a = choose|a: int| 0 <= a < rem.len() && rem[a] == x;
                let k = if a < m { a } else { a - 1 };
                assert(rest[k] == x);
            }
        }
        assert forall|x: int| #[trigger] s.contains(x) <==> rem.contains(x) by {
            if s.contains(x) {
                let k = choose|k: int| 0 <= k < s.len() && s[k] == x;
                if k > 0 {
                    assert(t[k - 1] == x);
                    assert(t.contains(x));
                }
            }
            if rem.contains(x) {
                if x == rem[m] {
                    assert(s[0] == x);
                } else {
                    assert(t.contains(x));
                    let k = choose|k: int| 0 <= k < t.len() && t[k] == x;
                    assert(s[k + 1] == x);
                }
            }
        }
        assert(distinct_in(s, es.len() as int)) by {
            assert forall|i: int, j: int| 0 <= i < j < s.len() implies s[i] != s[j] by {
                if i == 0 {
                    assert(s[j] == t[j - 1]);
                    assert(t.contains(t[j - 1]));
                    assert(!rest.contains(rem[m]));
                } else {
                    assert(s[i] == t[i - 1]);
                    assert(s[j] == t[j - 1]);
                }
            }
            assert forall|k: int| 0 <= k < s.len() implies 0 <= #[trigger] s[k] < es.len() by {
                if k > 0 {
                    assert(s[k] == t[k - 1]);
                }
            }
        }
        assert forall|i: int, j: int| 0 <= i < j < rem.len() implies bytes_lt(
            key_bytes(es, #[trigger] s[i]),
            key_bytes(es, #[trigger] s[j]),
        ) by {
            if i == 0 {
                assert(s[j] == t[j - 1]);
                assert(t.contains(t[j - 1]));
                let y = t[j - 1];
                assert(rest.contains(y));
                let a = choose|a: int| 0 <= a < rem.len() && rem[a] == y;
                lemma_min_pos_least(es, rem, a);
                assert(y != rem[m]);
                lemma_key_bytes_distinct(es, y, rem[m]);
                lemma_bytes_lt_total(key_bytes(es, y), key_bytes(es, rem[m]));
            } else {
                assert(s[i] == t[i - 1]);
                assert(s[j] == t[j - 1]);
            }
        }
    }
}

/// The entries of a map with distinct keys are written each exactly once, in
/// strictly ascending byte order of their keys.
pub proof fn law_entry_order_sorted(es: Seq<(Key, Object)>)
    requires
        distinct_keys(es),
    ensures
        entry_order(es).len() == es.len(),
        distinct_in(entry_order(es), es.len() as int),
        forall|i: int, j: int|
            0 <= i < j < es.len() ==> bytes_lt(
                key_bytes(es, #[trigger] entry_order(es)[i]),
                key_bytes(es, #[trigger] entry_order(es)[j]),
            ),
{
    let r = indices(es.len());
    assert(distinct_in(r, es.len() as int));
    lemma_sorted_order(es, r);
}

// ---------------------------------------------------------------- lexer

/// Spans that follow one another without gaps or overlaps, from `start` to `end`.
pub open spec fn contiguous(t: Seq<SpanView>, start: int, end: int) -> bool {
    if t.len() == 0 {
        start == end
    } else {
        &&& t[0].start == start
        &&& t.last().end == end
        &&& forall|i: int| 0 < i < t.len() ==> #[trigger] t[i].start == t[i - 1].end
    }
}

proof fn lemma_fill_contiguous(t: Seq<SpanView>, i: int, cur: int)
    requires
        chained(t),
        0 <= i < t.len(),
        cur <= t[i].start,
    ensures
        contiguous(spec_fill(t, i, cur), cur, t.last().end),
        spec_fill(t, i, cur).len() > 0,
        spec_fill(t, i, cur).last() == t.last(),
    decreases t.len() - i,
{
    let gap: Seq<SpanView> = if t[i].start > cur {
        seq![SpanView { token: TokenView::Plaintext, start: cur, end: t[i].start }]
    } else {
        Seq::empty()
    };
    let head = gap + seq![t[i]];
    let f = spec_fill(t, i, cur);
    assert(f == head + spec_fill(t, i + 1, t[i].end));
    assert(head[0].start == cur);
    assert(head.last() == t[i]);
    assert(forall|k: int| 0 < k < head.len() ==> #[trigger] head[k].start == head[k - 1].end);
    if i + 1 < t.len() {
        assert(t[i + 1].start >= t[i].end);
        lemma_fill_contiguous(t, i + 1, t[i].end);
        let rest = spec_fill(t, i + 1, t[i].end);
        assert(f.last() == rest.last());
        assert forall|k: int| 0 < k < f.len() implies #[trigger] f[k].start == f[k - 1].end by {
            if k < head.len() {
                assert(f[k] == head[k]);
                assert(f[k - 1] == head[k - 1]);
            } else if k == head.len() {
                assert(f[k] == rest[0]);
                assert(f[k - 1] == head.last());
            } else {
                assert(f[k] == rest[k - head.len()]);
                assert(f[k - 1] == rest[k - 1 - head.len()]);
            }
        }
    } else {
        assert(spec_fill(t, i + 1, t[i].end) == Seq::<SpanView>::empty());
        assert(f =~= head);
    }
}

proof fn lemma_convert_spans(t: Seq<SpanView>, i: int)
    ensures
        spec_convert(t, i).len() == t.len(),
        forall|k: int|
            0 <= k < t.len() ==> (#[trigger] spec_convert(t, i)[k]).start == t[k].start && spec_convert(
                t,
                i,
            )[k].end == t[k].end,
    decreases t.len() - i,
{
    if 0 <= i < t.len() {
        let t2 = if bad_at(t, i) {
            t.update(i, plain_span(t[i]))
        } else {
            t
        };
        lemma_convert_spans(t2, i + 1);
        assert forall|k: int| 0 <= k < t.len() implies t2[k].start == t[k].start && t2[k].end == t[k].end by {}
    }
}

/// Wherever the lexer runs to its end, the tokens that it hands out cover the
/// input without gaps or overlaps: the first starts at 0, each starts where the
/// one before it ends, and the last ends at the end of the input.
pub proof fn law_lex_output_tiles(conf: StaticConf, s: Seq<u8>, sorted: Seq<SpanView>)
    requires
        lex_ok(conf, s),
        virtual_order(conf, s, sorted),
    ensures
        contiguous(lex_output(sorted, s.len() as int), 0, s.len() as int),
{
    let n = s.len() as int;
    let t = sorted.push(eof_span(n));
    assert(chained(t));
    assert(t[0].start >= 0);
    lemma_fill_contiguous(t, 0, 0);
    let f = spec_fill(t, 0, 0);
    lemma_convert_spans(f, 0);
    let c = spec_convert(f, 0);
    let out = c.drop_last();
    assert(out == lex_output(sorted, n));
    assert(c.last().start == n && c.last().end == n);
    if c.len() == 1 {
        assert(c[0].start == 0);
    } else {
        assert(out.last() == c[c.len() - 2]);
        assert(c[c.len() - 1].start == c[c.len() - 2].end);
        assert forall|i: int| 0 < i < out.len() implies #[trigger] out[i].start == out[i - 1].end by {
            assert(out[i] == c[i]);
            assert(out[i - 1] == c[i - 1]);
        }
    }
}

/// No span holds inline math.
pub open spec fn no_math(t: Seq<SpanView>) -> bool {
    forall|i: int| 0 <= i < t.len() ==> !(#[trigger] t[i].token is InlineMath)
}

proof fn lemma_macro_bodies_no_math(s: Seq<u8>, st: ScanView, np: int)
    requires
        no_math(st.tokens),
    ensures
        no_math(spec_macro_bodies(s, st, np).0.tokens),
    decreases s.len() - np,
{
    if 0 <= np < s.len() && s[np] == 123u8 {
        let j = crate::tape::first_fail(s, np, crate::tape::pred_not(125u8));
        if j < s.len() && j >= np {
            let st2 = crate::lexer::push_tok(st, TokenView::MacroBody { body: s.subrange(np + 1, j) }, np, j + 1);
            assert(no_math(st2.tokens)) by {
                assert forall|i: int| 0 <= i < st2.tokens.len() implies !(#[trigger] st2.tokens[i].token is InlineMath) by {
                    if i < st.tokens.len() {
                        assert(st2.tokens[i] == st.tokens[i]);
                    }
                }
            }
            lemma_macro_bodies_no_math(s, st2, j + 1);
        }
    }
}

proof fn lemma_step_no_math(conf: StaticConf, s: Seq<u8>, st: ScanView, pos: int)
    requires
        conf.finance_mode,
        no_math(st.tokens),
        0 <= pos < s.len(),
    ensures
        spec_step(conf, s, st, pos) matches Some((st2, _)) ==> no_math(st2.tokens),
{
    assert forall|t: Seq<SpanView>, x: SpanView| no_math(t) && !(x.token is InlineMath) implies no_math(
        #[trigger] t.push(x),
    ) by {
        assert forall|i: int| 0 <= i < t.push(x).len() implies !(#[trigger] t.push(x)[i].token is InlineMath) by {
            if i < t.len() {
                assert(t.push(x)[i] == t[i]);
            }
        }
    }
    let ch = s[pos];
    if ch == 59u8 && pos != s.len() - 1 {
        let p = pos + 1;
        let ke = crate::chars::key_end(s, p);
        if ke != p && ke < s.len() && (s[ke] == 40u8 || s[ke] == 91u8 || s[ke] == 123u8) {
            let st1 = crate::lexer::push_tok(st, TokenView::MacroHandle { name: s.subrange(p, ke) }, pos, pos + (ke - p) + 1);
            lemma_macro_rest_no_math(s, st1, ke);
            if s[ke] == 40u8 {
                let j = crate::tape::first_fail(s, ke, crate::tape::pred_not(41u8));
                if j < s.len() {
                    let st2 = crate::lexer::push_tok(st1, TokenView::MacroDecor { body: s.subrange(ke + 1, j) }, ke, j + 1);
                    lemma_macro_rest_no_math(s, st2, j + 1);
                }
            }
        }
    }
}

proof fn lemma_macro_rest_no_math(s: Seq<u8>, st: ScanView, np: int)
    requires
        no_math(st.tokens),
    ensures
        no_math(crate::lexer::spec_macro_rest(s, st, np).0.tokens),
{
    assert forall|t: Seq<SpanView>, x: SpanView| no_math(t) && !(x.token is InlineMath) implies no_math(
        #[trigger] t.push(x),
    ) by {
        assert forall|i: int| 0 <= i < t.push(x).len() implies !(#[trigger] t.push(x)[i].token is InlineMath) by {
            if i < t.len() {
                assert(t.push(x)[i] == t[i]);
            }
        }
    }
    lemma_macro_bodies_no_math(s, st, np);
    if 0 <= np < s.len() && s[np] == 91u8 {
        let j = crate::tape::first_fail(s, np, crate::tape::pred_not(93u8));
        if j < s.len() {
            let st2 = crate::lexer::push_tok(st, TokenView::MacroConfig { body: s.subrange(np + 1, j) }, np, j + 1);
            lemma_macro_bodies_no_math(s, st2, j + 1);
        }
    }
}

proof fn lemma_scan_no_math(conf: StaticConf, s: Seq<u8>, st: ScanView, pos: int)
    requires
        conf.finance_mode,
        no_math(st.tokens),
    ensures
        spec_scan(conf, s, st, pos) matches Some(fin) ==> no_math(fin.tokens),
    decreases 2 * s.len() + 16 - pos,
{
    if 0 <= pos < s.len() {
        lemma_step_no_math(conf, s, st, pos);
        match spec_step(conf, s, st, pos) {
            Some((st2, j)) => {
                let np = match j {
                    Some(x) => x,
                    None => pos,
                } + 1;
                if np > pos && np <= 2 * s.len() + 16 {
                    lemma_scan_no_math(conf, s, st2, np);
                }
            },
            None => {},
        }
    }
}

/// In finance mode the lexer recognizes no inline math: none of the tokens it
/// hands out is inline math.
pub proof fn law_finance_mode_no_math(conf: StaticConf, s: Seq<u8>, sorted: Seq<SpanView>)
    requires
        conf.finance_mode,
        scan_runs(conf, s),
        virtual_order(conf, s, sorted),
    ensures
        no_math(lex_output(sorted, s.len() as int)),
{
    let n = s.len() as int;
    lemma_scan_no_math(conf, s, initial_scan(conf), 0);
    let scan = lex_scan(conf, s).unwrap();
    let perm = choose|perm: Seq<int>| crate::lexer::permuted(sorted, scan.tokens, perm);
    assert(no_math(sorted)) by {
        assert forall|i: int| 0 <= i < sorted.len() implies !(#[trigger] sorted[i].token is InlineMath) by {
            assert(sorted[i] == scan.tokens[perm[i]]);
        }
    }
    let t = sorted.push(eof_span(n));
    assert(no_math(t)) by {
        assert forall|i: int| 0 <= i < t.len() implies !(#[trigger] t[i].token is InlineMath) by {
            if i < sorted.len() {
                assert(t[i] == sorted[i]);
            }
        }
    }
    lemma_fill_no_math(t, 0, 0);
    lemma_convert_no_math(spec_fill(t, 0, 0), 0);
    crate::lexer::lemma_fill_nonempty(t, 0, 0);
    crate::lexer::lemma_convert_len(spec_fill(t, 0, 0), 0);
    let c = spec_convert(spec_fill(t, 0, 0), 0);
    assert(no_math(c.drop_last())) by {
        assert forall|i: int| 0 <= i < c.drop_last().len() implies !(#[trigger] c.drop_last()[i].token is InlineMath) by {
            assert(c.drop_last()[i] == c[i]);
        }
    }
}

proof fn lemma_fill_no_math(t: Seq<SpanView>, i: int, cur: int)
    requires
        no_math(t),
    ensures
        no_math(spec_fill(t, i, cur)),
    decreases t.len() - i,
{
    if 0 <= i < t.len() {
        lemma_fill_no_math(t, i + 1, t[i].end);
        let gap: Seq<SpanView> = if t[i].start > cur {
            seq![SpanView { token: TokenView::Plaintext, start: cur, end: t[i].start }]
        } else {
            Seq::empty()
        };
        let head = gap + seq![t[i]];
        let rest = spec_fill(t, i + 1, t[i].end);
        let f = spec_fill(t, i, cur);
        assert(f == head + rest);
        assert forall|k: int| 0 <= k < f.len() implies !(#[trigger] f[k].token is InlineMath) by {
            if k < head.len() {
                assert(f[k] == head[k]);
            } else {
                assert(f[k] == rest[k - head.len()]);
            }
        }
    }
}

proof fn lemma_convert_no_math(t: Seq<SpanView>, i: int)
    requires
        no_math(t),
    ensures
        no_math(spec_convert(t, i)),
    decreases t.len() - i,
{
    if 0 <= i < t.len() {
        let t2 = if bad_at(t, i) {
            t.update(i, plain_span(t[i]))
        } else {
            t
        };
        assert(no_math(t2)) by {
            assert forall|k: int| 0 <= k < t2.len() implies !(#[trigger] t2[k].token is InlineMath) by {
                if k != i {
                    assert(t2[k] == t[k]);
                }
            }
        }
        lemma_convert_no_math(t2, i + 1);
    }
}

// ---------------------------------------------------------------- grammar and visitors

proof fn lemma_heading_token(t: TokenView)
    requires
        spec_kind(t) == TokenKind::HeadingMarker,
    ensures
        t matches TokenView::HeadingMarker { .. },
{
}

proof fn lemma_format_token(t: TokenView)
    requires
        spec_kind(t) == TokenKind::InlineFormat,
    ensures
        t matches TokenView::InlineFormat { .. },
{
}

/// The nodes that the grammar builds for headings, paragraphs, formats, line
/// quotes and block quotes have the shape that the visitors of those rules
/// require; for a format, when its style is a single one.
pub proof fn law_grammar_nodes_visitable(t: Seq<SpanView>, p: int)
    ensures
        spec_heading(t, p) matches Some((n, _)) ==> heading_shape(n),
        spec_paragraph(t, p) matches Some((n, _)) ==> n.children.len() > 0,
        spec_format(t, p) matches Some((n, _)) ==> (!(t[p].token matches TokenView::InlineFormat {
            ty: InlineFormat::BoldItalic,
            ..
        }) ==> format_shape(n)),
        spec_line_quote(t, p) matches Some((n, _)) ==> n.children.len() >= 2,
        spec_block_quote(t, p) matches Some((n, _)) ==> n.children.len() >= 3,
{
    if kind_at(t, p, TokenKind::HeadingMarker) {
        lemma_heading_token(t[p].token);
    }
    if kind_at(t, p, TokenKind::InlineFormat) {
        lemma_format_token(t[p].token);
    }
}

} // verus!

verus! {

// ---------------------------------------------------------------- emitters

/// The HTML of a format node wraps its paragraph in the tag of its style: bold
/// in `<b class='dt-bold'>`..`</b>`, highlight in `<mark class='dt-hl'>`..`</mark>`,
/// italic in `<i class='dt-italic'>`..`</i>`, strikethrough in
/// `<s class='dt-rem'>`..`</s>`, underline in `<u class='dt-under'>`..`</u>`;
/// two different styles never share an opening or a closing tag.
pub proof fn law_html_format_tags(f: InlineFormat, g: InlineFormat)
    requires
        f != InlineFormat::BoldItalic,
        g != InlineFormat::BoldItalic,
    ensures
        html_format_open(InlineFormat::Bold) == "<b class='dt-bold'>"@,
        html_format_close(InlineFormat::Bold) == "</b>"@,
        html_format_open(InlineFormat::Highlight) == "<mark class='dt-hl'>"@,
        html_format_close(InlineFormat::Highlight) == "</mark>"@,
        html_format_open(InlineFormat::Italic) == "<i class='dt-italic'>"@,
        html_format_close(InlineFormat::Italic) == "</i>"@,
        html_format_open(InlineFormat::Strikethrough) == "<s class='dt-rem'>"@,
        html_format_close(InlineFormat::Strikethrough) == "</s>"@,
        html_format_open(InlineFormat::Underline) == "<u class='dt-under'>"@,
        html_format_close(InlineFormat::Underline) == "</u>"@,
        f != g ==> html_format_open(f) != html_format_open(g),
        f != g ==> html_format_close(f) != html_format_close(g),
{
    reveal_strlit("<b class='dt-bold'>");
    reveal_strlit("<mark class='dt-hl'>");
    reveal_strlit("<i class='dt-italic'>");
    reveal_strlit("<s class='dt-rem'>");
    reveal_strlit("<u class='dt-under'>");
    reveal_strlit("</b>");
    reveal_strlit("</mark>");
    reveal_strlit("</i>");
    reveal_strlit("</s>");
    reveal_strlit("</u>");
    if f != g {
        assert(html_format_open(f)[1] != html_format_open(g)[1]);
        assert(html_format_close(f)[2] != html_format_close(g)[2]);
    }
}

/// The Markdown of a format node wraps its text in the marks of its style:
/// `**` for bold, `***` for highlight, `*` for italic, `~~` for
/// strikethrough, `<ins>`..`</ins>` for underline; two different styles never
/// share an opening or a closing mark.
pub proof fn law_markdown_format_marks(f: InlineFormat, g: InlineFormat)
    requires
        f != InlineFormat::BoldItalic,
        g != InlineFormat::BoldItalic,
    ensures
        md_format_mark(InlineFormat::Bold) == "**"@,
        md_format_close(InlineFormat::Bold) == "**"@,
        md_format_mark(InlineFormat::Highlight) == "***"@,
        md_format_close(InlineFormat::Highlight) == "***"@,
        md_format_mark(InlineFormat::Italic) == "*"@,
        md_format_close(InlineFormat::Italic) == "*"@,
        md_format_mark(InlineFormat::Strikethrough) == "~~"@,
        md_format_close(InlineFormat::Strikethrough) == "~~"@,
        md_format_mark(InlineFormat::Underline) == "<ins>"@,
        md_format_close(InlineFormat::Underline) == "</ins>"@,
        f != g ==> md_format_mark(f) != md_format_mark(g),
        f != g ==> md_format_close(f) != md_format_close(g),
{
    reveal_strlit("**");
    reveal_strlit("***");
    reveal_strlit("*");
    reveal_strlit("~~");
    reveal_strlit("<ins>");
    reveal_strlit("</ins>");
    if f != g {
        if md_format_mark(f).len() == md_format_mark(g).len() {
            assert(md_format_mark(f)[0] != md_format_mark(g)[0]);
        }
        if md_format_close(f).len() == md_format_close(g).len() {
            assert(md_format_close(f)[0] != md_format_close(g)[0]);
        }
    }
}

} // verus!

verus! {

// ---------------------------------------------------------------- format markers

/// Which flags the single formats share with the others.
proof fn lemma_format_flags()
    by (bit_vector)
    ensures
        8u8 & 1u8 == 0u8, 8u8 & 2u8 == 0u8, 8u8 & 4u8 == 0u8, 8u8 & 16u8 == 0u8, 8u8 & 3u8 == 0u8,
        4u8 & 1u8 == 0u8, 4u8 & 2u8 == 0u8, 4u8 & 8u8 == 0u8, 4u8 & 16u8 == 0u8, 4u8 & 3u8 == 0u8,
        16u8 & 1u8 == 0u8, 16u8 & 2u8 == 0u8, 16u8 & 4u8 == 0u8, 16u8 & 8u8 == 0u8, 16u8 & 3u8 == 0u8,
        8u8 & 8u8 == 8u8, 4u8 & 4u8 == 4u8, 16u8 & 16u8 == 16u8,
        1u8 & 4u8 == 0u8, 1u8 & 8u8 == 0u8, 1u8 & 16u8 == 0u8,
        2u8 & 4u8 == 0u8, 2u8 & 8u8 == 0u8, 2u8 & 16u8 == 0u8,
        3u8 & 4u8 == 0u8, 3u8 & 8u8 == 0u8, 3u8 & 16u8 == 0u8,
{
}

/// The scan step at a marker of a single format `f` (at `pos`): every token it
/// emits is an inline format of style `f`; where the marker opens (clear on its
/// left, not on its right) it records an opener of style `f` at `pos`; where it
/// closes (clear on its right) the last opener of style `f`, it pops that opener
/// and emits the twin pair of style `f`, one byte each, at the opener and at `pos`.
pub open spec fn marks_single_format(s: Seq<u8>, st: ScanView, pos: int, st2: ScanView, f: InlineFormat) -> bool {
    &&& st.tokens.len() <= st2.tokens.len()
    &&& st2.tokens.subrange(0, st.tokens.len() as int) == st.tokens
    &&& forall|i: int|
        st.tokens.len() <= i < st2.tokens.len() ==> (#[trigger] st2.tokens[i].token matches TokenView::InlineFormat {
            ty,
            ..
        } && ty == f)
    &&& st2.fmts.len() > st.fmts.len() ==> st2.fmts.last().0 == f
    &&& spec_left_clear(s, pos) && !spec_right_clear(s, pos) ==> st2.fmts == st.fmts.push((f, pos))
    &&& !(spec_left_clear(s, pos) && !spec_right_clear(s, pos)) && spec_right_clear(s, pos) && st.fmts.len() > 0
        && st.fmts.last().0 == f ==> {
        let op = st.fmts.last().1;
        &&& st2.fmts == st.fmts.drop_last()
        &&& st2.tokens == st.tokens.push(SpanView { token: TokenView::InlineFormat { ty: f, twin_pos: pos }, start: op, end: op + 1 }).push(
            SpanView { token: TokenView::InlineFormat { ty: f, twin_pos: op }, start: pos, end: pos + 1 },
        )
    }
}

/// The format that a marker byte stands for is fixed by the byte: an
/// underscore marks underline, a vertical bar highlight, a tilde strikethrough,
/// and an asterisk only ever bold, italic or both.
pub proof fn law_marker_formats(conf: StaticConf, s: Seq<u8>, st: ScanView, pos: int)
    requires
        0 <= pos < s.len(),
    ensures
        spec_step(conf, s, st, pos) matches Some((st2, _)) ==> {
            &&& s[pos] == 95u8 ==> marks_single_format(s, st, pos, st2, InlineFormat::Underline)
            &&& s[pos] == 124u8 ==> marks_single_format(s, st, pos, st2, InlineFormat::Highlight)
            &&& s[pos] == 126u8 ==> marks_single_format(s, st, pos, st2, InlineFormat::Strikethrough)
            &&& s[pos] == 42u8 ==> forall|i: int|
                st.tokens.len() <= i < st2.tokens.len() ==> (#[trigger] st2.tokens[i].token matches TokenView::InlineFormat {
                    ty,
                    ..
                } && (ty == InlineFormat::Bold || ty == InlineFormat::Italic || ty == InlineFormat::BoldItalic))
            &&& s[pos] == 42u8 && spec_left_clear(s, pos) && !spec_right_clear(s, pos) ==> st2.fmts == st.fmts.push(
                (
                    if spec_is_at(s, pos, seq![42u8, 42u8, 42u8]) {
                        InlineFormat::BoldItalic
                    } else if spec_is_at(s, pos, seq![42u8, 42u8]) {
                        InlineFormat::Bold
                    } else {
                        InlineFormat::Italic
                    },
                    pos,
                ),
            )
        },
{
    lemma_format_flags();
    let ch = s[pos];
    if ch == 95u8 {
        lemma_single_marker(s, st, pos, InlineFormat::Underline);
    } else if ch == 124u8 {
        lemma_single_marker(s, st, pos, InlineFormat::Highlight);
    } else if ch == 126u8 {
        lemma_single_marker(s, st, pos, InlineFormat::Strikethrough);
    } else if ch == 42u8 {
        assert(stars3() == seq![42u8, 42u8, 42u8]);
        assert(stars2() == seq![42u8, 42u8]);
        if spec_is_at(s, pos, stars3()) {
            lemma_star_marker(s, st, pos, InlineFormat::BoldItalic);
        } else if spec_is_at(s, pos, stars2()) {
            lemma_star_marker(s, st, pos, InlineFormat::Bold);
        } else {
            lemma_star_marker(s, st, pos, InlineFormat::Italic);
        }
    }
}

proof fn lemma_single_marker(s: Seq<u8>, st: ScanView, pos: int, f: InlineFormat)
    requires
        f == InlineFormat::Underline || f == InlineFormat::Highlight || f == InlineFormat::Strikethrough,
    ensures
        spec_handle_fmt(s, st, pos, f) matches Some((st2, _)) ==> marks_single_format(s, st, pos, st2, f),
{
    lemma_format_flags();
    assert(st.tokens.subrange(0, st.tokens.len() as int) =~= st.tokens);
    match spec_handle_fmt(s, st, pos, f) {
        Some((st2, _)) => {
            if spec_left_clear(s, pos) && !spec_right_clear(s, pos) {
                assert(st2.tokens =~= st.tokens);
            } else if spec_right_clear(s, pos) && st.fmts.len() > 0 && spec_format_bits(st.fmts.last().0)
                & spec_format_bits(f) != 0 {
                let om = st.fmts.last().0;
                assert(om == f);
                assert(st2.tokens.subrange(0, st.tokens.len() as int) =~= st.tokens);
                assert forall|i: int|
                    st.tokens.len() <= i < st2.tokens.len() implies (#[trigger] st2.tokens[i].token matches TokenView::InlineFormat {
                    ty,
                    ..
                } && ty == f) by {}
            } else {
                assert(st2.tokens =~= st.tokens);
                if !(spec_left_clear(s, pos) && !spec_right_clear(s, pos)) && spec_right_clear(s, pos)
                    && st.fmts.len() > 0 && st.fmts.last().0 == f {
                    assert(spec_format_bits(st.fmts.last().0) & spec_format_bits(f) != 0);
                }
            }
        },
        None => {},
    }
}

proof fn lemma_star_marker(s: Seq<u8>, st: ScanView, pos: int, f: InlineFormat)
    requires
        f == InlineFormat::Bold || f == InlineFormat::Italic || f == InlineFormat::BoldItalic,
    ensures
        spec_handle_fmt(s, st, pos, f) matches Some((st2, _)) ==> forall|i: int|
            st.tokens.len() <= i < st2.tokens.len() ==> (#[trigger] st2.tokens[i].token matches TokenView::InlineFormat {
                ty,
                ..
            } && (ty == InlineFormat::Bold || ty == InlineFormat::Italic || ty == InlineFormat::BoldItalic)),
{
    lemma_format_flags();
    match spec_handle_fmt(s, st, pos, f) {
        Some((st2, _)) => {
            if spec_left_clear(s, pos) && !spec_right_clear(s, pos) {
                assert(st2.tokens =~= st.tokens);
            } else if spec_right_clear(s, pos) && st.fmts.len() > 0 && spec_format_bits(st.fmts.last().0)
                & spec_format_bits(f) != 0 {
                let om = st.fmts.last().0;
                assert(om == InlineFormat::Bold || om == InlineFormat::Italic || om == InlineFormat::BoldItalic);
            } else {
                assert(st2.tokens =~= st.tokens);
            }
        },
        None => {},
    }
}

} // verus!

verus! {

// ---------------------------------------------------------------- paragraphs

/// A token that stands alone within a line (plain text, code, math, a
/// literal) or a newline.
pub open spec fn para_token(t: Seq<SpanView>, i: int) -> bool {
    kind_at(t, i, TokenKind::Newline) || (0 <= i < t.len() && inline_token_choice(spec_kind(t[i].token)) is Some)
}

/// The tokens from `p` to `q` are such tokens, at least one, with no two
/// newlines in a row.
pub open spec fn para_run(t: Seq<SpanView>, p: int, q: int) -> bool {
    &&& 0 <= p < q <= t.len()
    &&& forall|i: int| p <= i < q ==> #[trigger] para_token(t, i)
    &&& forall|i: int| p <= i && i + 1 < q ==> !(#[trigger] kind_at(t, i, TokenKind::Newline) && kind_at(t, i + 1, TokenKind::Newline))
}

proof fn lemma_para_loop_run(t: Seq<SpanView>, p: int, q: int, i: int, acc: Seq<AstView>, blank: bool)
    requires
        para_run(t, p, q),
        p <= i <= q,
        blank ==> !kind_at(t, q - 1, TokenKind::Newline) && kind_at(t, q, TokenKind::Newline) && kind_at(
            t,
            q + 1,
            TokenKind::Newline,
        ),
        !blank ==> q == t.len() || (!kind_at(t, q, TokenKind::Newline) && spec_line_element(t, q) is None),
    ensures
        spec_para_loop(t, i, acc).1 == (if blank {
            q + 1
        } else {
            q
        }),
        spec_para_loop(t, i, acc).0.len() == acc.len() + (q - i),
    decreases q - i,
{
    if i == q {
        if !blank && q == t.len() {
            assert(!kind_at(t, q, TokenKind::Newline));
            assert(spec_line_element(t, q) is None);
        }
    } else {
        assert(para_token(t, i));
        if kind_at(t, i, TokenKind::Newline) {
            if i + 1 < q {
                assert(!(kind_at(t, i, TokenKind::Newline) && kind_at(t, i + 1, TokenKind::Newline)));
            } else {
                assert(!kind_at(t, i + 1, TokenKind::Newline));
            }
            lemma_para_loop_run(
                t,
                p,
                q,
                i + 1,
                acc.push(branch_view(RuleKind::Group, seq![leaf_view(t[i])], NodeMetadata::Choice(0))),
                blank,
            );
        } else {
            assert(spec_line_element(t, i) is Some);
            let c = spec_line_element(t, i).unwrap().0;
            assert(spec_line_element(t, i).unwrap().1 == i + 1);
            lemma_para_loop_run(
                t,
                p,
                q,
                i + 1,
                acc.push(branch_view(RuleKind::Group, seq![c], NodeMetadata::Choice(1))),
                blank,
            );
        }
    }
}

/// A paragraph runs over single newlines: from `p`, over tokens that stand
/// alone within a line and newlines with no two in a row, the paragraph takes
/// every one of them as a part of its own, up to the end of the tokens or to
/// a token that cannot go on a line.
pub proof fn law_paragraph_spans_single_newlines(t: Seq<SpanView>, p: int, q: int)
    requires
        para_run(t, p, q),
        q == t.len() || (!kind_at(t, q, TokenKind::Newline) && spec_line_element(t, q) is None),
    ensures
        spec_paragraph(t, p) matches Some((n, r)) && r == q && n.children.len() == q - p,
{
    lemma_para_loop_run(t, p, q, p, Seq::empty(), false);
}

/// A paragraph ends at a blank line: over such a run that does not end in a
/// newline, followed by two newlines, the paragraph takes every token of the
/// run and passes over the first newline.
pub proof fn law_paragraph_ends_at_blank_line(t: Seq<SpanView>, p: int, q: int)
    requires
        para_run(t, p, q),
        !kind_at(t, q - 1, TokenKind::Newline),
        kind_at(t, q, TokenKind::Newline),
        kind_at(t, q + 1, TokenKind::Newline),
    ensures
        spec_paragraph(t, p) matches Some((n, r)) && r == q + 1 && n.children.len() == q - p,
{
    lemma_para_loop_run(t, p, q, p, Seq::empty(), true);
}

} // verus!

verus! {

// ---------------------------------------------------------------- pretty text

/// `piece` stands somewhere in `text`.
pub open spec fn contains_text(text: Seq<char>, piece: Seq<char>) -> bool {
    exists|a: int| 0 <= a && a + piece.len() <= text.len() && #[trigger] text.subrange(a, a + piece.len()) == piece
}

/// The line of an entry written with its whole key, in a map at `depth`.
pub open spec fn entry_line(k: Seq<char>, v: Object, depth: nat) -> Seq<char> {
    indent(depth + 1) + k + " = "@ + pretty(v, depth + 1) + ",\n"@
}

/// The line of an entry written inside the block of its scope, its key
/// without the scope and the dot, in a map at `depth`.
pub open spec fn scoped_line(k: Seq<char>, v: Object, depth: nat) -> Seq<char> {
    indent(depth + 2) + k.subrange(first_dot(k) + 1, k.len() as int) + " = "@ + pretty(v, depth + 2) + ",\n"@
}

proof fn lemma_contains_front(l: Seq<char>, b: Seq<char>)
    ensures
        contains_text(l + b, l),
{
    let z: int = 0;
    assert((l + b).subrange(z, z + l.len()) =~= l);
}

proof fn lemma_contains_extend(a: Seq<char>, x: Seq<char>, b: Seq<char>, l: Seq<char>)
    requires
        contains_text(x, l),
    ensures
        contains_text(a + x + b, l),
{
    let i = choose|i: int| 0 <= i && i + l.len() <= x.len() && #[trigger] x.subrange(i, i + l.len()) == l;
    let w = a + x + b;
    assert(w.subrange(a.len() + i, a.len() + i + l.len()) =~= x.subrange(i, i + l.len()));
}

proof fn lemma_first_dot_props(k: Seq<char>)
    requires
        k.contains('.'),
    ensures
        0 <= first_dot(k) < k.len(),
        k[first_dot(k)] == '.',
        forall|i: int| 0 <= i < first_dot(k) ==> k[i] != '.',
    decreases k.len(),
{
    if k[0] != '.' {
        let x = choose|x: int| 0 <= x < k.len() && k[x] == '.';
        assert(k.drop_first()[x - 1] == '.');
        lemma_first_dot_props(k.drop_first());
        assert forall|i: int| 0 <= i < first_dot(k) implies k[i] != '.' by {
            if i > 0 {
                assert(k[i] == k.drop_first()[i - 1]);
            }
        }
    }
}

proof fn lemma_scope_end_prefix(es: Seq<(Key, Object)>, ord: Seq<int>, q: int, dp: Seq<char>)
    requires
        0 <= q,
    ensures
        q <= scope_end(es, ord, q, dp),
        forall|x: int| q <= x < scope_end(es, ord, q, dp) ==> has_prefix(#[trigger] key_chars(es, ord[x]), dp),
    decreases ord.len() - q,
{
    if 0 <= q < ord.len() && has_prefix(key_chars(es, ord[q]), dp) {
        lemma_scope_end_prefix(es, ord, q + 1, dp);
    }
}

/// A key that starts with the scope of a dotted key and a dot has its first dot there.
proof fn lemma_scoped_key(ki: Seq<char>, kt: Seq<char>)
    requires
        ki.contains('.'),
        has_prefix(kt, scope_of(ki) + "."@),
    ensures
        kt.contains('.'),
        first_dot(kt) + 1 == (scope_of(ki) + "."@).len(),
{
    reveal_strlit(".");
    lemma_first_dot_props(ki);
    let a = scope_of(ki);
    assert(!a.contains('.')) by {
        if a.contains('.') {
            let x = choose|x: int| 0 <= x < a.len() && a[x] == '.';
            assert(ki[x] == '.');
        }
    }
    let dp = a + "."@;
    assert(dp =~= a + seq!['.']);
    let rest = kt.subrange(dp.len() as int, kt.len() as int);
    assert(kt =~= a + seq!['.'] + rest);
    crate::format::lemma_first_dot(a, rest);
}

proof fn lemma_scope_lines(es: Seq<(Key, Object)>, ord: Seq<int>, q: int, e: int, plen: nat, depth: nat, t: int)
    requires
        0 <= q <= t < e <= ord.len(),
        forall|x: int| 0 <= x < ord.len() ==> 0 <= #[trigger] ord[x] < es.len(),
    ensures
        contains_text(
            pretty_scope(es, ord, q, e, plen, depth),
            indent(depth + 2) + es[ord[t]].0.0@.subrange(plen as int, es[ord[t]].0.0@.len() as int) + " = "@
                + pretty(es[ord[t]].1, depth + 2) + ",\n"@,
        ),
    decreases e - q,
{
    let j = ord[q];
    let k = es[j].0.0@;
    let piece = indent(depth + 2) + k.subrange(plen as int, k.len() as int) + " = "@ + pretty(es[j].1, depth + 2)
        + ",\n"@;
    let rest = pretty_scope(es, ord, q + 1, e, plen, depth);
    assert(pretty_scope(es, ord, q, e, plen, depth) == piece + rest);
    if t == q {
        lemma_contains_front(piece, rest);
    } else {
        lemma_scope_lines(es, ord, q + 1, e, plen, depth, t);
        lemma_contains_extend(piece, rest, Seq::empty(), indent(depth + 2) + es[ord[t]].0.0@.subrange(
            plen as int,
            es[ord[t]].0.0@.len() as int,
        ) + " = "@ + pretty(es[ord[t]].1, depth + 2) + ",\n"@);
        assert(piece + rest + Seq::<char>::empty() =~= piece + rest);
    }
}

/// Where an entry stands in the lines of a map: its line with the whole key,
/// or with the key's part after its scope.
pub open spec fn entry_written(text: Seq<char>, k: Seq<char>, v: Object, depth: nat) -> bool {
    contains_text(text, entry_line(k, v, depth)) || (k.contains('.') && contains_text(text, scoped_line(k, v, depth)))
}

proof fn lemma_pretty_from_lines(es: Seq<(Key, Object)>, ord: Seq<int>, i: int, depth: nat, t: int)
    requires
        0 <= i <= t < ord.len(),
        forall|x: int| 0 <= x < ord.len() ==> 0 <= #[trigger] ord[x] < es.len(),
    ensures
        entry_written(pretty_from(es, ord, i, depth), es[ord[t]].0.0@, es[ord[t]].1, depth),
    decreases ord.len() - i,
{
    let j = ord[i];
    let k = es[j].0.0@;
    let kt = es[ord[t]].0.0@;
    let vt = es[ord[t]].1;
    let line = entry_line(k, es[j].1, depth);
    if !k.contains('.') {
        let rest = pretty_from(es, ord, i + 1, depth);
        assert(pretty_from(es, ord, i, depth) =~= line + rest);
        if t == i {
            lemma_contains_front(line, rest);
        } else {
            lemma_pretty_from_lines(es, ord, i + 1, depth, t);
            if contains_text(rest, entry_line(kt, vt, depth)) {
                lemma_contains_extend(line, rest, Seq::empty(), entry_line(kt, vt, depth));
            } else {
                lemma_contains_extend(line, rest, Seq::empty(), scoped_line(kt, vt, depth));
            }
            assert(line + rest + Seq::<char>::empty() =~= line + rest);
        }
    } else {
        let dp = scope_of(k) + "."@;
        let e = scope_end(es, ord, i + 1, dp);
        lemma_scope_end_prefix(es, ord, i + 1, dp);
        if i + 1 < e <= ord.len() {
            let head = indent(depth + 1) + scope_of(k) + "{\n"@;
            let sc = pretty_scope(es, ord, i, e, dp.len(), depth);
            let mid = indent(depth + 1) + "},\n"@;
            let rest = pretty_from(es, ord, e, depth);
            assert(pretty_from(es, ord, i, depth) =~= head + sc + (mid + rest));
            if t < e {
                lemma_scope_lines(es, ord, i, e, dp.len(), depth, t);
                assert(has_prefix(kt, dp)) by {
                    if t == i {
                        lemma_first_dot_props(k);
                        reveal_strlit(".");
                        assert(scope_of(k).len() == first_dot(k));
                        assert(dp.len() == first_dot(k) + 1);
                        assert(kt.subrange(0, dp.len() as int) =~= dp);
                    } else {
                        assert(has_prefix(key_chars(es, ord[t]), dp));
                    }
                }
                lemma_scoped_key(k, kt);
                assert(scoped_line(kt, vt, depth) == indent(depth + 2) + kt.subrange(dp.len() as int, kt.len() as int)
                    + " = "@ + pretty(vt, depth + 2) + ",\n"@);
                lemma_contains_extend(head, sc, mid + rest, scoped_line(kt, vt, depth));
            } else {
                lemma_pretty_from_lines(es, ord, e, depth, t);
                if contains_text(rest, entry_line(kt, vt, depth)) {
                    lemma_contains_extend(head + sc + mid, rest, Seq::empty(), entry_line(kt, vt, depth));
                } else {
                    lemma_contains_extend(head + sc + mid, rest, Seq::empty(), scoped_line(kt, vt, depth));
                }
                assert(head + sc + mid + rest + Seq::<char>::empty() =~= head + sc + (mid + rest));
            }
        } else {
            let rest = pretty_from(es, ord, i + 1, depth);
            assert(pretty_from(es, ord, i, depth) =~= line + rest);
            if t == i {
                lemma_contains_front(line, rest);
            } else {
                lemma_pretty_from_lines(es, ord, i + 1, depth, t);
                if contains_text(rest, entry_line(kt, vt, depth)) {
                    lemma_contains_extend(line, rest, Seq::empty(), entry_line(kt, vt, depth));
                } else {
                    lemma_contains_extend(line, rest, Seq::empty(), scoped_line(kt, vt, depth));
                }
                assert(line + rest + Seq::<char>::empty() =~= line + rest);
            }
        }
    }
}

/// Every entry of a map stands in its pretty text: a line with its key (or,
/// inside the block of its scope, the key's part after the scope), ` = ` and
/// the pretty text of its value.
pub proof fn law_pretty_writes_every_entry(m: ObjectMap, depth: nat, j: int)
    requires
        m.wf(),
        0 <= j < m.entries@.len(),
    ensures
        entry_written(pretty(Object::Mapping(m), depth), m.entries@[j].0.0@, m.entries@[j].1, depth),
{
    let es = m.entries@;
    let k = es[j].0.0@;
    let v = es[j].1;
    if es.len() == 1 {
        assert(j == 0);
        let line = entry_line(k, v, depth);
        assert(pretty(Object::Mapping(m), depth) =~= "{\n"@ + line + (indent(depth) + "}"@));
        lemma_contains_front(line, indent(depth) + "}"@);
        lemma_contains_extend("{\n"@, line + (indent(depth) + "}"@), Seq::empty(), line);
        assert("{\n"@ + (line + (indent(depth) + "}"@)) + Seq::<char>::empty() =~= "{\n"@ + line + (indent(depth)
            + "}"@));
    } else {
        let ord = entry_order(es);
        law_entry_order_sorted(es);
        lemma_sorted_order(es, indices(es.len()));
        assert(indices(es.len())[j] == j);
        assert(indices(es.len()).contains(j));
        assert(ord.contains(j));
        let t = choose|t: int| 0 <= t < ord.len() && ord[t] == j;
        lemma_pretty_from_lines(es, ord, 0, depth, t);
        let body = pretty_from(es, ord, 0, depth);
        assert(pretty(Object::Mapping(m), depth) =~= "{\n"@ + body + (indent(depth) + "}"@));
        if contains_text(body, entry_line(k, v, depth)) {
            lemma_contains_extend("{\n"@, body, indent(depth) + "}"@, entry_line(k, v, depth));
        } else {
            lemma_contains_extend("{\n"@, body, indent(depth) + "}"@, scoped_line(k, v, depth));
        }
    }
}

} // verus!
