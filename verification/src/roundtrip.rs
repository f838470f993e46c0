//! The one-line text of an object read back by the object-notation parser.
use vstd::prelude::*;
use vstd::utf8::{
    char_is_scalar, decode_utf8, encode_scalar, encode_utf8, encode_utf8_decode_utf8,
    encode_utf8_valid_utf8, has_width_1_encoding, has_width_2_encoding, has_width_3_encoding,
    is_ascii_chars, is_ascii_chars_encode_utf8, valid_utf8,
};
use crate::chars::{key_end, spec_key_part, spec_key_start};
use crate::format::{text_entries, text_items, text_of};
use crate::object::{
    distinct_keys, lemma_view_entries_at, lemma_view_entries_dom, view_entries, view_items, view_object, Key,
    Number, Object, ObjectView,
};
use crate::number::{float_literal, nan_literal};
use crate::format::{entry_order, indices};
use crate::object::ErrorView;
use crate::object_parse::{
    lemma_unescaped_plain, spec_list_loop, spec_map_loop, spec_parse_any, spec_parse_number, spec_parse_string,
    string_close, string_value, unescaped, word_false, word_inf, word_infinity, word_null, word_true,
};
use crate::tape::{consumed_to, first_fail, pred_key_part, pred_simple_ws, pred_ws_nl, pred_ws_nl_comma, spec_is_at};

verus! {

/// The bytes of the one-line text of an object.
pub open spec fn text_bytes(o: Object) -> Seq<u8> {
    encode_utf8(text_of(o))
}

pub proof fn lemma_encode_concat(a: Seq<char>, b: Seq<char>)
    ensures
        encode_utf8(a + b) == encode_utf8(a) + encode_utf8(b),
    decreases a.len(),
{
    if a.len() == 0 {
        assert(a + b =~= b);
        assert(encode_utf8(a) + encode_utf8(b) =~= encode_utf8(b));
    } else {
        lemma_encode_concat(a.drop_first(), b);
        assert((a + b).drop_first() =~= a.drop_first() + b);
        assert((a + b)[0] == a[0]);
        assert(encode_utf8(a + b) =~= encode_utf8(a) + encode_utf8(b));
    }
}

/// A byte of the encoding of a character is below 128 only when the
/// character is that byte.
proof fn lemma_scalar_bytes(c: char)
    ensures
        forall|i: int|
            0 <= i < encode_scalar(c as u32).len() && #[trigger] encode_scalar(c as u32)[i] < 128 ==> (
            encode_scalar(c as u32)[i] as u32 == c as u32),
{
    char_is_scalar(c);
    let v = c as u32;
    if has_width_1_encoding(v) {
        assert(((v & 0x7F) as u8) as u32 == v) by (bit_vector)
            requires
                v <= 0x7F,
        ;
    } else if has_width_2_encoding(v) {
        assert(0xC0 | ((v >> 6) & 0x1F) as u8 >= 0xC0) by (bit_vector);
        assert(0x80 | (v & 0x3F) as u8 >= 0x80) by (bit_vector);
    } else if has_width_3_encoding(v) {
        assert(0xE0 | ((v >> 12) & 0x0F) as u8 >= 0xE0) by (bit_vector);
        assert(0x80 | ((v >> 6) & 0x3F) as u8 >= 0x80) by (bit_vector);
        assert(0x80 | (v & 0x3F) as u8 >= 0x80) by (bit_vector);
    } else {
        assert(0xF0 | ((v >> 18) & 0x7) as u8 >= 0xF0) by (bit_vector);
        assert(0x80 | ((v >> 12) & 0x3F) as u8 >= 0x80) by (bit_vector);
        assert(0x80 | ((v >> 6) & 0x3F) as u8 >= 0x80) by (bit_vector);
        assert(0x80 | (v & 0x3F) as u8 >= 0x80) by (bit_vector);
    }
}

/// The encoding of a text holds an ASCII byte only where the text holds that character.
pub proof fn lemma_encode_no_byte(cs: Seq<char>, x: u8)
    requires
        x < 128,
        forall|i: int| 0 <= i < cs.len() ==> #[trigger] cs[i] as u32 != x as u32,
    ensures
        forall|k: int| 0 <= k < encode_utf8(cs).len() ==> #[trigger] encode_utf8(cs)[k] != x,
    decreases cs.len(),
{
    if cs.len() > 0 {
        let head = encode_scalar(cs[0] as u32);
        let rest = cs.drop_first();
        lemma_scalar_bytes(cs[0]);
        assert forall|i: int| 0 <= i < rest.len() implies #[trigger] rest[i] as u32 != x as u32 by {
            assert(rest[i] == cs[i + 1]);
        }
        lemma_encode_no_byte(rest, x);
        assert(encode_utf8(cs) == head + encode_utf8(rest));
        assert forall|k: int| 0 <= k < encode_utf8(cs).len() implies #[trigger] encode_utf8(cs)[k] != x by {
            if k < head.len() {
                assert(encode_utf8(cs)[k] == head[k]);
                assert(cs[0] as u32 != x as u32);
            } else {
                assert(encode_utf8(cs)[k] == encode_utf8(rest)[k - head.len()]);
            }
        }
    }
}

/// The encoding of ASCII text, byte for character.
pub proof fn lemma_ascii_bytes(cs: Seq<char>)
    requires
        is_ascii_chars(cs),
    ensures
        encode_utf8(cs) =~= cs.map_values(|c: char| c as u8),
{
    is_ascii_chars_encode_utf8(cs);
}

/// The closing delimiter of a string body with no delimiter and no backslash.
proof fn lemma_string_close(s: Seq<u8>, i: int, m: int, delim: u8)
    requires
        0 <= i <= m < s.len(),
        s[m] == delim,
        delim != 92u8,
        forall|k: int| i <= k < m ==> #[trigger] s[k] != delim && s[k] != 92u8,
    ensures
        string_close(s, i, delim, false) == m,
    decreases m - i,
{
    if i < m {
        assert(s[i] != delim && s[i] != 92u8);
        lemma_string_close(s, i + 1, m, delim);
    } else {
        assert(s[i] == delim);
    }
}

/// Text without a quote, a backslash or a newline.
pub open spec fn plain_text(t: Seq<char>) -> bool {
    forall|i: int| 0 <= i < t.len() ==> #[trigger] t[i] != '"' && t[i] != '\\' && t[i] != '\n'
}

/// A string written in double quotes is read back as itself.
proof fn lemma_parse_plain_string(t: Seq<char>, s: Seq<u8>, pos: int)
    requires
        plain_text(t),
        0 <= pos,
        pos + encode_utf8(t).len() + 2 <= s.len(),
        s[pos] == 34u8,
        s.subrange(pos + 1, pos + 1 + encode_utf8(t).len()) == encode_utf8(t),
        s[pos + 1 + encode_utf8(t).len()] == 34u8,
    ensures
        spec_parse_string(s, pos, 34u8) == Ok::<_, crate::object::ErrorView>(
            (crate::object::ObjectView::String(t), pos + encode_utf8(t).len() + 2),
        ),
{
    let e = encode_utf8(t);
    let m = pos + 1 + e.len();
    assert forall|i: int| 0 <= i < t.len() implies #[trigger] t[i] as u32 != 34u32 by {
        assert(t[i] != '"');
        vstd::utf8::char_u32_cast(t[i], t[i] as u32);
        vstd::utf8::char_u32_cast('"', 34u32);
    }
    lemma_encode_no_byte(t, 34u8);
    assert forall|i: int| 0 <= i < t.len() implies #[trigger] t[i] as u32 != 92u32 by {
        assert(t[i] != '\\');
        vstd::utf8::char_u32_cast(t[i], t[i] as u32);
        vstd::utf8::char_u32_cast('\\', 92u32);
    }
    lemma_encode_no_byte(t, 92u8);
    assert forall|i: int| 0 <= i < t.len() implies #[trigger] t[i] as u32 != 10u32 by {
        assert(t[i] != '\n');
        vstd::utf8::char_u32_cast(t[i], t[i] as u32);
        vstd::utf8::char_u32_cast('\n', 10u32);
    }
    lemma_encode_no_byte(t, 10u8);
    assert forall|k: int| pos + 1 <= k < m implies #[trigger] s[k] != 34u8 && s[k] != 92u8 by {
        assert(s[k] == e[k - pos - 1]);
    }
    lemma_string_close(s, pos + 1, m, 34u8);
    assert(s.subrange(pos + 1, m) == e);
    encode_utf8_valid_utf8(t);
    encode_utf8_decode_utf8(t);
    assert(!e.contains(10u8));
    lemma_unescaped_plain(t, Seq::empty());
    assert(t + Seq::<char>::empty() =~= t);
    assert(unescaped(Seq::<char>::empty()) =~= Seq::<char>::empty());
    assert(string_value(e) == t);
}

} // verus!

verus! {

/// The bytes of the literal pieces of the one-line text.
pub proof fn lemma_literals()
    ensures
        encode_utf8("null"@) == seq![110u8, 117u8, 108u8, 108u8],
        encode_utf8("true"@) == seq![116u8, 114u8, 117u8, 101u8],
        encode_utf8("false"@) == seq![102u8, 97u8, 108u8, 115u8, 101u8],
        encode_utf8("\""@) == seq![34u8],
        encode_utf8("["@) == seq![91u8],
        encode_utf8("]"@) == seq![93u8],
        encode_utf8("{"@) == seq![123u8],
        encode_utf8("}"@) == seq![125u8],
        encode_utf8(","@) == seq![44u8],
        encode_utf8(":"@) == seq![58u8],
{
    reveal_strlit("null");
    reveal_strlit("true");
    reveal_strlit("false");
    reveal_strlit("\"");
    reveal_strlit("[");
    reveal_strlit("]");
    reveal_strlit("{");
    reveal_strlit("}");
    reveal_strlit(",");
    reveal_strlit(":");
    lemma_ascii_bytes("null"@);
    lemma_ascii_bytes("true"@);
    lemma_ascii_bytes("false"@);
    lemma_ascii_bytes("\""@);
    lemma_ascii_bytes("["@);
    lemma_ascii_bytes("]"@);
    lemma_ascii_bytes("{"@);
    lemma_ascii_bytes("}"@);
    lemma_ascii_bytes(","@);
    lemma_ascii_bytes(":"@);
    assert(encode_utf8("null"@) =~= seq![110u8, 117u8, 108u8, 108u8]);
    assert(encode_utf8("true"@) =~= seq![116u8, 114u8, 117u8, 101u8]);
    assert(encode_utf8("false"@) =~= seq![102u8, 97u8, 108u8, 115u8, 101u8]);
    assert(encode_utf8("\""@) =~= seq![34u8]);
    assert(encode_utf8("["@) =~= seq![91u8]);
    assert(encode_utf8("]"@) =~= seq![93u8]);
    assert(encode_utf8("{"@) =~= seq![123u8]);
    assert(encode_utf8("}"@) =~= seq![125u8]);
    assert(encode_utf8(","@) =~= seq![44u8]);
    assert(encode_utf8(":"@) =~= seq![58u8]);
}

} // verus!

verus! {

/// A key that the parser reads as one key: a key-start byte, then key-part bytes.
pub open spec fn plain_key(k: Seq<char>) -> bool {
    &&& k.len() > 0
    &&& is_ascii_chars(k)
    &&& spec_key_start(k[0] as u8)
    &&& forall|i: int| 1 <= i < k.len() ==> spec_key_part(#[trigger] k[i] as u8)
}

/// The objects whose one-line text reads back as themselves: no numbers (a
/// number runs to the end of its line), strings without quotes, backslashes or
/// newlines, and maps with distinct keys that the parser reads as keys.
pub open spec fn plain(o: Object) -> bool
    decreases o, 0int,
{
    match o {
        Object::Null => true,
        Object::Bool(_) => true,
        Object::Number(_) => false,
        Object::String(t) => plain_text(t@),
        Object::List(items) => plain_items(items@),
        Object::Mapping(m) => distinct_keys(m.entries@) && plain_entries(m.entries@),
    }
}

pub open spec fn plain_items(s: Seq<Object>) -> bool
    decreases s, 0int,
{
    s.len() == 0 || (plain_items(s.drop_last()) && plain(s.last()))
}

pub open spec fn plain_entries(es: Seq<(Key, Object)>) -> bool
    decreases es, 0int,
{
    es.len() == 0 || (plain_entries(es.drop_last()) && plain_key(es.last().0.0@) && plain(es.last().1))
}

proof fn lemma_plain_items(s: Seq<Object>)
    ensures
        plain_items(s) <==> forall|i: int| 0 <= i < s.len() ==> plain(#[trigger] s[i]),
    decreases s.len(),
{
    if s.len() > 0 {
        lemma_plain_items(s.drop_last());
        if forall|i: int| 0 <= i < s.len() ==> plain(#[trigger] s[i]) {
            assert forall|i: int| 0 <= i < s.drop_last().len() implies plain(#[trigger] s.drop_last()[i]) by {
                assert(s.drop_last()[i] == s[i]);
            }
        }
        if plain_items(s) {
            assert forall|i: int| 0 <= i < s.len() implies plain(#[trigger] s[i]) by {
                if i < s.len() - 1 {
                    assert(s.drop_last()[i] == s[i]);
                }
            }
        }
    }
}

/// An entry with a plain key and a plain value.
pub open spec fn plain_entry(e: (Key, Object)) -> bool {
    plain_key(e.0.0@) && plain(e.1)
}

proof fn lemma_plain_entries(es: Seq<(Key, Object)>)
    ensures
        plain_entries(es) <==> forall|i: int| 0 <= i < es.len() ==> plain_entry(#[trigger] es[i]),
    decreases es.len(),
{
    if es.len() > 0 {
        lemma_plain_entries(es.drop_last());
        if forall|i: int| 0 <= i < es.len() ==> plain_entry(#[trigger] es[i]) {
            assert forall|i: int| 0 <= i < es.drop_last().len() implies plain_entry(#[trigger] es.drop_last()[i]) by {
                assert(es.drop_last()[i] == es[i]);
            }
            assert(plain_entry(es.last()));
        }
        if plain_entries(es) {
            assert forall|i: int| 0 <= i < es.len() implies plain_entry(#[trigger] es[i]) by {
                if i < es.len() - 1 {
                    assert(es.drop_last()[i] == es[i]);
                } else {
                    assert(es[i] == es.last());
                }
            }
        }
    }
}

/// Items written one after the other, a comma between.
proof fn lemma_items_split(a: Seq<Object>, b: Seq<Object>)
    requires
        a.len() > 0,
        b.len() > 0,
    ensures
        text_items(a + b) == text_items(a) + ","@ + text_items(b),
    decreases b.len(),
{
    let ab = a + b;
    assert(ab.last() == b.last());
    if b.len() == 1 {
        assert(ab.drop_last() =~= a);
        assert(b[0] == b.last());
    } else {
        assert(ab.drop_last() =~= a + b.drop_last());
        lemma_items_split(a, b.drop_last());
        assert(text_items(ab) =~= text_items(a) + ","@ + text_items(b));
    }
}

/// Entries written one after the other, a comma between.
proof fn lemma_entries_split(es: Seq<(Key, Object)>, a: Seq<int>, b: Seq<int>)
    requires
        a.len() > 0,
        b.len() > 0,
    ensures
        text_entries(es, a + b) == text_entries(es, a) + ","@ + text_entries(es, b),
    decreases b.len(),
{
    let ab = a + b;
    assert(ab.last() == b.last());
    if b.len() == 1 {
        assert(ab.drop_last() =~= a);
        assert(text_entries(es, b) =~= Seq::<char>::empty() + text_entries(es, b));
        let j = b.last();
        if 0 <= j < es.len() {
            assert(text_entries(es, b) == Seq::<char>::empty() + es[j].0.0@ + ":"@ + text_of(es[j].1));
            assert(text_entries(es, ab) =~= text_entries(es, a) + ","@ + text_entries(es, b));
        } else {
            assert(text_entries(es, b) == Seq::<char>::empty());
            assert(text_entries(es, ab) == text_entries(es, a) + ","@);
            assert(text_entries(es, ab) =~= text_entries(es, a) + ","@ + text_entries(es, b));
        }
    } else {
        assert(ab.drop_last() =~= a + b.drop_last());
        lemma_entries_split(es, a, b.drop_last());
        let j = b.last();
        assert(text_entries(es, b) == text_entries(es, b.drop_last()) + ","@ + (if 0 <= j < es.len() {
            es[j].0.0@ + ":"@ + text_of(es[j].1)
        } else {
            Seq::<char>::empty()
        })) by {
            if 0 <= j < es.len() {
                assert(text_entries(es, b) =~= text_entries(es, b.drop_last()) + ","@ + (es[j].0.0@ + ":"@ + text_of(es[j].1)));
            } else {
                assert(text_entries(es, b) =~= text_entries(es, b.drop_last()) + ","@ + Seq::<char>::empty());
            }
        }
        if 0 <= j < es.len() {
            assert(text_entries(es, ab) =~= text_entries(es, a) + ","@ + text_entries(es, b));
        } else {
            assert(text_entries(es, ab) =~= text_entries(es, a) + ","@ + text_entries(es, b));
        }
    }
}

proof fn lemma_view_items_concat(a: Seq<Object>, b: Seq<Object>)
    ensures
        view_items(a + b) == view_items(a) + view_items(b),
    decreases b.len(),
{
    if b.len() == 0 {
        assert(a + b =~= a);
        assert(view_items(a) + view_items(b) =~= view_items(a));
    } else {
        assert((a + b).drop_last() =~= a + b.drop_last());
        assert((a + b).last() == b.last());
        lemma_view_items_concat(a, b.drop_last());
        assert(view_items(a + b) =~= view_items(a) + view_items(b));
    }
}

} // verus!

verus! {

/// `acc` with the entries listed in `ord` inserted from the first on.
pub open spec fn insert_all(acc: Map<Seq<char>, ObjectView>, es: Seq<(Key, Object)>, ord: Seq<int>) -> Map<
    Seq<char>,
    ObjectView,
>
    decreases ord.len(),
{
    if ord.len() == 0 {
        acc
    } else {
        insert_all(
            acc.insert(es[ord[0]].0.0@, view_object(es[ord[0]].1)),
            es,
            ord.subrange(1, ord.len() as int),
        )
    }
}

/// Indices within range, none twice, whose entries have distinct keys.
pub open spec fn valid_order(es: Seq<(Key, Object)>, ord: Seq<int>) -> bool {
    &&& forall|t: int| 0 <= t < ord.len() ==> 0 <= #[trigger] ord[t] < es.len()
    &&& forall|a: int, b: int| 0 <= a < b < ord.len() ==> ord[a] != ord[b]
    &&& distinct_keys(es)
}

proof fn lemma_insert_all(acc: Map<Seq<char>, ObjectView>, es: Seq<(Key, Object)>, ord: Seq<int>)
    requires
        valid_order(es, ord),
    ensures
        forall|k: Seq<char>|
            #[trigger] insert_all(acc, es, ord).contains_key(k) <==> (acc.contains_key(k) || exists|t: int|
                0 <= t < ord.len() && es[ord[t]].0.0@ == k),
        forall|t: int|
            0 <= t < ord.len() ==> insert_all(acc, es, ord)[#[trigger] es[ord[t]].0.0@] == view_object(
                es[ord[t]].1,
            ),
    decreases ord.len(),
{
    if ord.len() > 0 {
        let rest = ord.subrange(1, ord.len() as int);
        let k0 = es[ord[0]].0.0@;
        let acc2 = acc.insert(k0, view_object(es[ord[0]].1));
        assert(valid_order(es, rest)) by {
            assert forall|a: int, b: int| 0 <= a < b < rest.len() implies rest[a] != rest[b] by {
                assert(rest[a] == ord[a + 1]);
                assert(rest[b] == ord[b + 1]);
            }
            assert forall|t: int| 0 <= t < rest.len() implies 0 <= #[trigger] rest[t] < es.len() by {
                assert(rest[t] == ord[t + 1]);
            }
        }
        lemma_insert_all(acc2, es, rest);
        let r = insert_all(acc, es, ord);
        assert(r == insert_all(acc2, es, rest));
        assert forall|k: Seq<char>| #[trigger] r.contains_key(k) <==> (acc.contains_key(k) || exists|t: int|
            0 <= t < ord.len() && es[ord[t]].0.0@ == k) by {
            if exists|t: int| 0 <= t < rest.len() && es[rest[t]].0.0@ == k {
                let t = choose|t: int| 0 <= t < rest.len() && es[rest[t]].0.0@ == k;
                assert(rest[t] == ord[t + 1]);
            }
            if exists|t: int| 0 <= t < ord.len() && es[ord[t]].0.0@ == k {
                let t = choose|t: int| 0 <= t < ord.len() && es[ord[t]].0.0@ == k;
                if t > 0 {
                    assert(rest[t - 1] == ord[t]);
                }
            }
        }
        assert forall|t: int| 0 <= t < ord.len() implies r[#[trigger] es[ord[t]].0.0@] == view_object(
            es[ord[t]].1,
        ) by {
            if t > 0 {
                assert(rest[t - 1] == ord[t]);
                assert(es[rest[t - 1]].0.0@ == es[ord[t]].0.0@);
            } else {
                lemma_insert_all_keeps(acc2, es, rest, k0);
            }
        }
    }
}

/// A key that none of the listed entries has keeps its value.
proof fn lemma_insert_all_keeps(acc: Map<Seq<char>, ObjectView>, es: Seq<(Key, Object)>, ord: Seq<int>, k: Seq<char>)
    requires
        forall|t: int| 0 <= t < ord.len() ==> 0 <= #[trigger] ord[t] < es.len() && es[ord[t]].0.0@ != k,
        acc.contains_key(k),
    ensures
        insert_all(acc, es, ord).contains_key(k),
        insert_all(acc, es, ord)[k] == acc[k],
    decreases ord.len(),
{
    if ord.len() > 0 {
        let rest = ord.subrange(1, ord.len() as int);
        assert(es[ord[0]].0.0@ != k);
        assert forall|t: int| 0 <= t < rest.len() implies 0 <= #[trigger] rest[t] < es.len() && es[rest[t]].0.0@ != k by {
            assert(rest[t] == ord[t + 1]);
        }
        lemma_insert_all_keeps(acc.insert(es[ord[0]].0.0@, view_object(es[ord[0]].1)), es, rest, k);
    }
}

} // verus!

verus! {

/// The bytes `b` stand in `s` from `pos` on.
pub open spec fn at(s: Seq<u8>, pos: int, b: Seq<u8>) -> bool {
    0 <= pos && pos + b.len() <= s.len() && s.subrange(pos, pos + b.len()) == b
}

/// A byte that the one-line text of an object may start with: `n`, `t`, `f`,
/// a double quote, `[` or `{`.
pub open spec fn first_byte_ok(b: u8) -> bool {
    b == 110u8 || b == 116u8 || b == 102u8 || b == 34u8 || b == 91u8 || b == 123u8
}

proof fn lemma_at_split(s: Seq<u8>, pos: int, a: Seq<u8>, b: Seq<u8>)
    requires
        at(s, pos, a + b),
    ensures
        at(s, pos, a),
        at(s, pos + a.len(), b),
{
    let w = s.subrange(pos, pos + a.len() + b.len());
    assert(w == a + b);
    assert forall|i: int| 0 <= i < a.len() implies #[trigger] s.subrange(pos, pos + a.len())[i] == a[i] by {
        assert(w[i] == s[pos + i]);
        assert((a + b)[i] == a[i]);
    }
    assert(s.subrange(pos, pos + a.len()) =~= a);
    assert forall|i: int| 0 <= i < b.len() implies #[trigger] s.subrange(pos + a.len(), pos + a.len() + b.len())[i]
        == b[i] by {
        assert(w[a.len() + i] == s[pos + a.len() + i]);
        assert((a + b)[a.len() + i] == b[i]);
    }
    assert(s.subrange(pos + a.len(), pos + a.len() + b.len()) =~= b);
}

proof fn lemma_at_byte(s: Seq<u8>, pos: int, b: Seq<u8>, i: int)
    requires
        at(s, pos, b),
        0 <= i < b.len(),
    ensures
        s[pos + i] == b[i],
{
    assert(s.subrange(pos, pos + b.len())[i] == s[pos + i]);
}

proof fn lemma_first_fail_exact(s: Seq<u8>, i: int, m: int, p: spec_fn(u8) -> bool)
    requires
        0 <= i <= m < s.len(),
        forall|k: int| i <= k < m ==> p(#[trigger] s[k]),
        !p(s[m]),
    ensures
        first_fail(s, i, p) == m,
    decreases m - i,
{
    if i < m {
        assert(p(s[i]));
        lemma_first_fail_exact(s, i + 1, m, p);
    }
}

proof fn lemma_not_at(s: Seq<u8>, pos: int, w: Seq<u8>)
    requires
        0 <= pos < s.len(),
        w.len() > 0,
        s[pos] != w[0],
    ensures
        !spec_is_at(s, pos, w),
{
    if pos + w.len() <= s.len() {
        assert(s.subrange(pos, pos + w.len())[0] == s[pos]);
    }
}

/// The one-line text of a plain object is read back as the object, to its last byte.
pub proof fn lemma_parse_text(o: Object, s: Seq<u8>, pos: int)
    requires
        plain(o),
        at(s, pos, text_bytes(o)),
    ensures
        text_bytes(o).len() > 0,
        first_byte_ok(text_bytes(o)[0]),
        spec_parse_any(s, pos) == Ok::<_, ErrorView>((view_object(o), pos + text_bytes(o).len())),
    decreases o, 0int,
{
    lemma_literals();
    let b = text_bytes(o);
    match o {
        Object::Null => {
            lemma_at_byte(s, pos, b, 0);
            lemma_not_at(s, pos, word_true());
            lemma_not_at(s, pos, word_false());
            assert(s.subrange(pos, pos + 4) =~= word_null());
        },
        Object::Bool(v) => {
            lemma_at_byte(s, pos, b, 0);
            if v {
                assert(s.subrange(pos, pos + 4) =~= word_true());
            } else {
                lemma_not_at(s, pos, word_true());
                assert(s.subrange(pos, pos + 5) =~= word_false());
            }
        },
        Object::Number(_) => {},
        Object::String(t) => {
            let e = encode_utf8(t@);
            lemma_encode_concat("\""@ + t@, "\""@);
            lemma_encode_concat("\""@, t@);
            assert(b =~= seq![34u8] + e + seq![34u8]);
            lemma_at_byte(s, pos, b, 0);
            lemma_at_byte(s, pos, b, b.len() - 1);
            lemma_at_split(s, pos, seq![34u8] + e, seq![34u8]);
            lemma_at_split(s, pos, seq![34u8], e);
            lemma_not_at(s, pos, word_true());
            lemma_not_at(s, pos, word_false());
            lemma_not_at(s, pos, word_null());
            lemma_not_at(s, pos, word_infinity());
            lemma_not_at(s, pos, word_inf());
            lemma_parse_plain_string(t@, s, pos);
        },
        Object::List(items) => {
            let e = encode_utf8(text_items(items@));
            lemma_encode_concat("["@ + text_items(items@), "]"@);
            lemma_encode_concat("["@, text_items(items@));
            assert(b =~= seq![91u8] + (e + seq![93u8]));
            lemma_at_byte(s, pos, b, 0);
            lemma_at_split(s, pos, seq![91u8], e + seq![93u8]);
            lemma_not_at(s, pos, word_true());
            lemma_not_at(s, pos, word_false());
            lemma_not_at(s, pos, word_null());
            lemma_not_at(s, pos, word_infinity());
            lemma_not_at(s, pos, word_inf());
            lemma_plain_items(items@);
            lemma_list_loop(items@, s, pos + 1, Seq::empty());
            assert(Seq::<ObjectView>::empty() + view_items(items@) =~= view_items(items@));
        },
        Object::Mapping(m) => {
            let es = m.entries@;
            let ord = entry_order(es);
            let e = encode_utf8(text_entries(es, ord));
            lemma_encode_concat("{"@ + text_entries(es, ord), "}"@);
            lemma_encode_concat("{"@, text_entries(es, ord));
            assert(b =~= seq![123u8] + (e + seq![125u8]));
            lemma_at_byte(s, pos, b, 0);
            lemma_at_split(s, pos, seq![123u8], e + seq![125u8]);
            lemma_not_at(s, pos, word_true());
            lemma_not_at(s, pos, word_false());
            lemma_not_at(s, pos, word_null());
            lemma_not_at(s, pos, word_infinity());
            lemma_not_at(s, pos, word_inf());
            lemma_plain_entries(es);
            crate::laws::law_entry_order_sorted(es);
            assert(Seq::<u8>::empty() + e + seq![125u8] =~= e + seq![125u8]);
            lemma_map_loop(es, ord, s, pos + 1, pos, Map::empty(), false);
            assert(first_fail(s, pos + 1, pred_simple_ws()) == pos + 1);
            assert(consumed_to(s, pos + 1, pred_simple_ws()) == pos + 1);
            lemma_insert_all_is_view(es);
        },
    }
}

} // verus!

verus! {

/// The items of a list, then its `]`, are read back from `p` on.
proof fn lemma_list_loop(its: Seq<Object>, s: Seq<u8>, p: int, acc: Seq<ObjectView>)
    requires
        forall|i: int| 0 <= i < its.len() ==> plain(#[trigger] its[i]),
        at(s, p, encode_utf8(text_items(its)) + seq![93u8]),
    ensures
        spec_list_loop(s, p, acc) == Ok::<_, ErrorView>(
            (ObjectView::List(acc + view_items(its)), p + encode_utf8(text_items(its)).len() + 1),
        ),
    decreases its, 1int,
{
    let e = encode_utf8(text_items(its));
    lemma_at_split(s, p, e, seq![93u8]);
    lemma_at_byte(s, p + e.len(), seq![93u8], 0);
    if its.len() == 0 {
        assert(e =~= Seq::<u8>::empty());
        assert(first_fail(s, p, pred_ws_nl()) == p);
        assert(acc + view_items(its) =~= acc);
    } else {
        let x = its[0];
        let rest = its.subrange(1, its.len() as int);
        let bx = text_bytes(x);
        assert(its =~= seq![x] + rest);
        assert(text_items(seq![x]) == text_of(x));
        assert(view_items(seq![x]) =~= seq![view_object(x)]) by {
            assert(seq![x].drop_last() =~= Seq::<Object>::empty());
            assert(view_items(Seq::<Object>::empty()) == Seq::<ObjectView>::empty());
            assert(seq![x].last() == x);
        }
        lemma_view_items_concat(seq![x], rest);
        assert forall|i: int| 0 <= i < rest.len() implies plain(#[trigger] rest[i]) by {
            assert(rest[i] == its[i + 1]);
        }
        let tail: Seq<u8> = if rest.len() == 0 {
            seq![93u8]
        } else {
            seq![44u8] + encode_utf8(text_items(rest)) + seq![93u8]
        };
        if rest.len() == 0 {
            assert(text_items(its) == text_of(x));
        } else {
            lemma_items_split(seq![x], rest);
            lemma_encode_concat(text_of(x) + ","@, text_items(rest));
            lemma_encode_concat(text_of(x), ","@);
            lemma_literals();
        }
        assert(e + seq![93u8] =~= bx + tail);
        lemma_at_split(s, p, bx, tail);
        lemma_parse_text(x, s, p);
        let p2 = p + bx.len();
        lemma_at_byte(s, p2, tail, 0);
        lemma_at_byte(s, p, bx, 0);
        assert(first_fail(s, p, pred_ws_nl()) == p);
        assert(first_fail(s, p2, pred_ws_nl()) == p2);
        if rest.len() == 0 {
            lemma_list_loop(rest, s, p2, acc.push(view_object(x)));
            assert(encode_utf8(text_items(rest)) =~= Seq::<u8>::empty());
            assert(acc.push(view_object(x)) + view_items(rest) =~= acc + view_items(its));
        } else {
            assert(tail =~= seq![44u8] + (encode_utf8(text_items(rest)) + seq![93u8]));
            lemma_at_split(s, p2, seq![44u8], encode_utf8(text_items(rest)) + seq![93u8]);
            lemma_list_loop(rest, s, p2 + 1, acc.push(view_object(x)));
            assert(acc.push(view_object(x)) + view_items(rest) =~= acc + view_items(its));
        }
    }
}

} // verus!

verus! {

/// The text of the entries listed in `ord`, then `}`: the first entry's key,
/// `:` and value, then the rest.
proof fn lemma_entries_front(es: Seq<(Key, Object)>, ord: Seq<int>)
    requires
        ord.len() > 0,
        0 <= ord[0] < es.len(),
    ensures
        encode_utf8(text_entries(es, ord)) + seq![125u8] =~= encode_utf8(es[ord[0]].0.0@) + seq![58u8]
            + text_bytes(es[ord[0]].1) + (if ord.len() == 1 {
            seq![125u8]
        } else {
            seq![44u8] + encode_utf8(text_entries(es, ord.subrange(1, ord.len() as int))) + seq![125u8]
        }),
{
    lemma_literals();
    let j = ord[0];
    let rest = ord.subrange(1, ord.len() as int);
    let k = es[j].0.0@;
    let v = es[j].1;
    assert(ord =~= seq![j] + rest);
    assert(seq![j].drop_last() =~= Seq::<int>::empty());
    assert(text_entries(es, seq![j]) =~= k + ":"@ + text_of(v));
    lemma_encode_concat(k + ":"@, text_of(v));
    lemma_encode_concat(k, ":"@);
    if rest.len() == 0 {
        assert(ord =~= seq![j]);
    } else {
        lemma_entries_split(es, seq![j], rest);
        lemma_encode_concat(text_entries(es, seq![j]) + ","@, text_entries(es, rest));
        lemma_encode_concat(text_entries(es, seq![j]), ","@);
    }
}

/// One entry, its key then `:` then its value, is read as that key and value.
proof fn lemma_map_entry(k: Seq<char>, v: Object, s: Seq<u8>, q: int)
    requires
        plain_key(k),
        plain(v),
        at(s, q, encode_utf8(k) + seq![58u8] + text_bytes(v)),
    ensures
        spec_key_start(s[q]),
        s[q] != 125u8,
        key_end(s, q) == q + encode_utf8(k).len(),
        s.subrange(q, key_end(s, q)) == encode_utf8(k),
        valid_utf8(encode_utf8(k)),
        decode_utf8(encode_utf8(k)) == k,
        s[key_end(s, q)] == 58u8,
        consumed_to(s, key_end(s, q), pred_simple_ws()) == key_end(s, q),
        consumed_to(s, key_end(s, q) + 1, pred_simple_ws()) == key_end(s, q) + 1,
        spec_parse_any(s, key_end(s, q) + 1) == Ok::<_, ErrorView>(
            (view_object(v), key_end(s, q) + 1 + text_bytes(v).len()),
        ),
    decreases v, 1int,
{
    let ek = encode_utf8(k);
    let bv = text_bytes(v);
    lemma_at_split(s, q, ek + seq![58u8], bv);
    lemma_at_split(s, q, ek, seq![58u8]);
    lemma_ascii_bytes(k);
    let ke = q + ek.len();
    lemma_at_byte(s, q, ek, 0);
    lemma_at_byte(s, ke, seq![58u8], 0);
    assert forall|i: int| q + 1 <= i < ke implies pred_key_part()(#[trigger] s[i]) by {
        lemma_at_byte(s, q, ek, i - q);
        assert(ek[i - q] == k[i - q] as u8);
    }
    lemma_first_fail_exact(s, q + 1, ke, pred_key_part());
    assert(key_end(s, q) == ke);
    encode_utf8_valid_utf8(k);
    encode_utf8_decode_utf8(k);
    assert(first_fail(s, ke, pred_simple_ws()) == ke);
    lemma_parse_text(v, s, ke + 1);
    lemma_at_byte(s, ke + 1, bv, 0);
    assert(first_fail(s, ke + 1, pred_simple_ws()) == ke + 1);
}

/// The entries of a map listed in `ord`, then its `}`, are read back from `p`
/// on; with `lead`, a comma comes first.
#[verifier::rlimit(40)]
proof fn lemma_map_loop(
    es: Seq<(Key, Object)>,
    ord: Seq<int>,
    s: Seq<u8>,
    p: int,
    open_pos: int,
    acc: Map<Seq<char>, ObjectView>,
    lead: bool,
)
    requires
        forall|t: int| 0 <= t < ord.len() ==> 0 <= #[trigger] ord[t] < es.len() && plain_entry(es[ord[t]]),
        lead ==> ord.len() > 0,
        at(
            s,
            p,
            (if lead {
                seq![44u8]
            } else {
                Seq::<u8>::empty()
            }) + encode_utf8(text_entries(es, ord)) + seq![125u8],
        ),
    ensures
        p < s.len(),
        lead ==> s[p] == 44u8,
        !lead ==> (s[p] == 125u8 || spec_key_start(s[p])),
        spec_map_loop(s, p, open_pos, acc) == Ok::<_, ErrorView>(
            (
                ObjectView::Mapping(insert_all(acc, es, ord)),
                p + (if lead {
                    1int
                } else {
                    0int
                }) + encode_utf8(text_entries(es, ord)).len() + 1,
            ),
        ),
    decreases es, 1 + ord.len(),
{
    let lp: Seq<u8> = if lead {
        seq![44u8]
    } else {
        Seq::<u8>::empty()
    };
    let e = encode_utf8(text_entries(es, ord));
    let q = p + lp.len();
    lemma_at_split(s, p, lp + e, seq![125u8]);
    lemma_at_split(s, p, lp, e);
    lemma_at_byte(s, q + e.len(), seq![125u8], 0);
    if ord.len() == 0 {
        assert(text_entries(es, ord) == Seq::<char>::empty());
        assert(e =~= Seq::<u8>::empty());
        assert(first_fail(s, p, pred_ws_nl_comma()) == p);
    } else {
        let j = ord[0];
        let rest = ord.subrange(1, ord.len() as int);
        let k = es[j].0.0@;
        let v = es[j].1;
        assert(plain_entry(es[j]));
        let ek = encode_utf8(k);
        let bv = text_bytes(v);
        let tail: Seq<u8> = if rest.len() == 0 {
            seq![125u8]
        } else {
            seq![44u8] + encode_utf8(text_entries(es, rest)) + seq![125u8]
        };
        lemma_entries_front(es, ord);
        assert(lp + e + seq![125u8] =~= lp + (ek + seq![58u8] + bv + tail));
        lemma_at_split(s, p, lp, ek + seq![58u8] + bv + tail);
        lemma_at_split(s, q, ek + seq![58u8] + bv, tail);
        lemma_map_entry(k, v, s, q);
        let ke = q + ek.len();
        if lead {
            lemma_at_byte(s, p, lp, 0);
            lemma_first_fail_exact(s, p, q, pred_ws_nl_comma());
        } else {
            assert(first_fail(s, p, pred_ws_nl_comma()) == p);
        }
        assert(consumed_to(s, p, pred_ws_nl_comma()) == q);
        let p4 = ke + 1 + bv.len();
        let acc2 = acc.insert(k, view_object(v));
        assert forall|t: int| 0 <= t < rest.len() implies 0 <= #[trigger] rest[t] < es.len() && plain_entry(
            es[rest[t]],
        ) by {
            assert(rest[t] == ord[t + 1]);
        }
        if rest.len() == 0 {
            assert(Seq::<u8>::empty() + encode_utf8(text_entries(es, rest)) + seq![125u8] =~= tail) by {
                assert(text_entries(es, rest) == Seq::<char>::empty());
            }
            lemma_map_loop(es, rest, s, p4, open_pos, acc2, false);
        } else {
            lemma_map_loop(es, rest, s, p4, open_pos, acc2, true);
        }
        assert(insert_all(acc, es, ord) == insert_all(acc2, es, rest));
    }
}

/// The entries inserted in the order in which they are written give the map
/// that the entries stand for.
proof fn lemma_insert_all_is_view(es: Seq<(Key, Object)>)
    requires
        distinct_keys(es),
    ensures
        insert_all(Map::empty(), es, entry_order(es)) == view_entries(es),
{
    let ord = entry_order(es);
    let n = es.len();
    crate::laws::law_entry_order_sorted(es);
    crate::laws::lemma_sorted_order(es, indices(n));
    assert(valid_order(es, ord));
    lemma_insert_all(Map::empty(), es, ord);
    let a = insert_all(Map::empty(), es, ord);
    let b = view_entries(es);
    assert forall|k: Seq<char>| a.contains_key(k) <==> b.contains_key(k) by {
        lemma_view_entries_dom(es, k);
        if a.contains_key(k) {
            let t = choose|t: int| 0 <= t < ord.len() && es[ord[t]].0.0@ == k;
            assert(es[ord[t]].0.0@ == k);
        }
        if b.contains_key(k) {
            let i = choose|i: int| 0 <= i < es.len() && #[trigger] es[i].0.0@ == k;
            assert(indices(n)[i] == i);
            assert(indices(n).contains(i));
            assert(ord.contains(i));
            let t = choose|t: int| 0 <= t < ord.len() && ord[t] == i;
            assert(es[ord[t]].0.0@ == k);
        }
    }
    assert forall|k: Seq<char>| #[trigger] a.contains_key(k) implies a[k] == b[k] by {
        let t = choose|t: int| 0 <= t < ord.len() && es[ord[t]].0.0@ == k;
        lemma_view_entries_at(es, ord[t]);
    }
    assert(a =~= b);
}

} // verus!

verus! {

/// A number literal that the parser reads back as itself when it stands alone:
/// it starts with a sign or a digit, holds no newline, is a float literal and
/// is not NaN.
pub open spec fn number_text_ok(t: Seq<char>) -> bool {
    let b = encode_utf8(t);
    &&& b.len() > 0
    &&& (b[0] == 45u8 || b[0] == 43u8 || (48u8 <= b[0] <= 57u8))
    &&& !b.contains(10u8)
    &&& float_literal(b)
    &&& !nan_literal(b)
}

/// The objects whose one-line text reads back as themselves when it stands
/// alone: the plain objects, and a number whose literal reads back.
pub open spec fn plain_top(o: Object) -> bool {
    plain(o) || (o matches Object::Number(n) && number_text_ok(n.literal@))
}

/// The bytes of a number literal, standing alone, are read as that number.
proof fn lemma_number_bytes(t: Seq<char>)
    requires
        number_text_ok(t),
    ensures
        spec_parse_number(encode_utf8(t), 0) == Ok::<_, ErrorView>(
            (ObjectView::Number(t), encode_utf8(t).len() as int),
        ),
{
    let s = encode_utf8(t);
    crate::tape::lemma_first_fail_bounds(s, 0, crate::tape::pred_not_nl());
    if first_fail(s, 0, crate::tape::pred_not_nl()) < s.len() {
        assert(s.contains(10u8));
    }
    assert(s.subrange(0, s.len() as int) =~= s);
    encode_utf8_valid_utf8(t);
    encode_utf8_decode_utf8(t);
}

/// A value starting with a sign or a digit is read as a number.
proof fn lemma_parse_any_number(s: Seq<u8>)
    requires
        s.len() > 0,
        s[0] == 45u8 || s[0] == 43u8 || (48u8 <= s[0] <= 57u8),
    ensures
        spec_parse_any(s, 0) == spec_parse_number(s, 0),
{
    lemma_not_at(s, 0, word_true());
    lemma_not_at(s, 0, word_false());
    lemma_not_at(s, 0, word_null());
    lemma_not_at(s, 0, word_infinity());
    lemma_not_at(s, 0, word_inf());
}

/// A number standing alone is read back as itself, to its last byte.
pub proof fn lemma_parse_top_number(n: Number)
    requires
        number_text_ok(n.literal@),
    ensures
        spec_parse_any(text_bytes(Object::Number(n)), 0) == Ok::<_, ErrorView>(
            (view_object(Object::Number(n)), text_bytes(Object::Number(n)).len() as int),
        ),
{
    let s = encode_utf8(n.literal@);
    assert(text_bytes(Object::Number(n)) == s);
    lemma_parse_any_number(s);
    lemma_number_bytes(n.literal@);
}

} // verus!
