//! Object notation text: the one-line form and the pretty form.
//!
//! Map entries are written in ascending byte order of their keys: the entry with
//! the smallest key first, then the rest in the same way.
use vstd::prelude::*;
use vstd::string::{StringExecFns, StringSliceAdditionalSpecFns};
use vstd::utf8::encode_utf8;
use crate::object::{Key, Object};

verus! {

/// Byte-wise lexicographic order, as `str`'s `Ord`.
pub open spec fn bytes_lt(a: Seq<u8>, b: Seq<u8>) -> bool
    decreases a.len(),
{
    if b.len() == 0 {
        false
    } else if a.len() == 0 {
        true
    } else if a[0] != b[0] {
        a[0] < b[0]
    } else {
        bytes_lt(a.drop_first(), b.drop_first())
    }
}

/// The bytes of the key of entry `j`.
pub open spec fn key_bytes(es: Seq<(Key, Object)>, j: int) -> Seq<u8> {
    if 0 <= j < es.len() {
        encode_utf8(es[j].0.0@)
    } else {
        Seq::empty()
    }
}

/// The position within `rem` of the first entry with the smallest key.
pub open spec fn min_pos(es: Seq<(Key, Object)>, rem: Seq<int>) -> int
    decreases rem.len(),
{
    if rem.len() <= 1 {
        0
    } else {
        let m = min_pos(es, rem.drop_last());
        if bytes_lt(key_bytes(es, rem.last()), key_bytes(es, rem[m])) {
            rem.len() - 1
        } else {
            m
        }
    }
}

pub proof fn lemma_min_pos(es: Seq<(Key, Object)>, rem: Seq<int>)
    requires
        rem.len() > 0,
    ensures
        0 <= min_pos(es, rem) < rem.len(),
    decreases rem.len(),
{
    if rem.len() > 1 {
        lemma_min_pos(es, rem.drop_last());
    }
}

/// The entries listed in `rem`, in the order in which they are written.
pub open spec fn sorted_order(es: Seq<(Key, Object)>, rem: Seq<int>) -> Seq<int>
    decreases rem.len(),
{
    if rem.len() == 0 {
        Seq::empty()
    } else {
        let m = min_pos(es, rem);
        if 0 <= m < rem.len() {
            seq![rem[m]] + sorted_order(es, rem.remove(m))
        } else {
            Seq::empty()
        }
    }
}

/// `0, 1, ..., n - 1`.
pub open spec fn indices(n: nat) -> Seq<int> {
    Seq::new(n, |i: int| i)
}

/// The order in which the entries of a map are written.
pub open spec fn entry_order(es: Seq<(Key, Object)>) -> Seq<int> {
    sorted_order(es, indices(es.len()))
}

/// The one-line text of an object.
pub open spec fn text_of(o: Object) -> Seq<char>
    decreases o, 0int,
{
    match o {
        Object::Null => "null"@,
        Object::Bool(b) => if b {
            "true"@
        } else {
            "false"@
        },
        Object::Number(n) => n.literal@,
        Object::String(s) => "\""@ + s@ + "\""@,
        Object::List(items) => "["@ + text_items(items@) + "]"@,
        Object::Mapping(m) => "{"@ + text_entries(m.entries@, entry_order(m.entries@)) + "}"@,
    }
}

/// Items separated by commas.
pub open spec fn text_items(s: Seq<Object>) -> Seq<char>
    decreases s, 0int,
{
    if s.len() == 0 {
        Seq::empty()
    } else if s.len() == 1 {
        text_of(s[0])
    } else {
        text_items(s.drop_last()) + ","@ + text_of(s.last())
    }
}

/// The entries listed in `ord` as `key:value`, separated by commas.
pub open spec fn text_entries(es: Seq<(Key, Object)>, ord: Seq<int>) -> Seq<char>
    decreases es, ord.len(),
{
    if ord.len() == 0 {
        Seq::empty()
    } else {
        let j = ord.last();
        let head = if ord.len() == 1 {
            Seq::empty()
        } else {
            text_entries(es, ord.drop_last()) + ","@
        };
        if 0 <= j < es.len() {
            head + es[j].0.0@ + ":"@ + text_of(es[j].1)
        } else {
            head
        }
    }
}

/// `n` levels of indentation, four spaces each.
pub open spec fn indent(n: nat) -> Seq<char>
    decreases n,
{
    if n == 0 {
        Seq::empty()
    } else {
        indent((n - 1) as nat) + "    "@
    }
}

/// The index of the first `.` in `k`, or its length.
pub open spec fn first_dot(k: Seq<char>) -> int
    decreases k.len(),
{
    if k.len() == 0 || k[0] == '.' {
        0
    } else {
        1 + first_dot(k.drop_first())
    }
}

/// `k` starts with `p`.
pub open spec fn has_prefix(k: Seq<char>, p: Seq<char>) -> bool {
    p.len() <= k.len() && k.subrange(0, p.len() as int) == p
}

/// The key of entry `j`.
pub open spec fn key_chars(es: Seq<(Key, Object)>, j: int) -> Seq<char> {
    if 0 <= j < es.len() {
        es[j].0.0@
    } else {
        Seq::empty()
    }
}

/// The scope of a dotted key: the part before its first dot.
pub open spec fn scope_of(k: Seq<char>) -> Seq<char> {
    k.subrange(0, first_dot(k))
}

/// Where the run of keys in `ord` from `q` on that start with `dp` ends.
pub open spec fn scope_end(es: Seq<(Key, Object)>, ord: Seq<int>, q: int, dp: Seq<char>) -> int
    decreases ord.len() - q,
{
    if 0 <= q < ord.len() && has_prefix(key_chars(es, ord[q]), dp) {
        scope_end(es, ord, q + 1, dp)
    } else {
        q
    }
}

/// The pretty text of an object at the given depth.
///
/// A list or map is written one item per line, each indented one level deeper
/// and followed by a comma. In a map of two or more entries, the keys that
/// share a scope (the part before the first dot) are grouped under that scope;
/// a dotted key that shares its scope with no other key is written as it is.
pub open spec fn pretty(o: Object, depth: nat) -> Seq<char>
    decreases o, 0int, 0int,
{
    match o {
        Object::List(items) => if items@.len() == 0 {
            "[]"@
        } else {
            "[\n"@ + pretty_items(items@, depth) + "]"@
        },
        Object::Mapping(m) => {
            let es = m.entries@;
            if es.len() == 0 {
                "{}"@
            } else if es.len() == 1 {
                "{\n"@ + indent(depth + 1) + es[0].0.0@ + " = "@ + pretty(es[0].1, depth + 1) + ",\n"@
                    + indent(depth) + "}"@
            } else {
                "{\n"@ + pretty_from(es, entry_order(es), 0, depth) + indent(depth) + "}"@
            }
        },
        _ => text_of(o),
    }
}

/// The lines of the items of a list.
pub open spec fn pretty_items(s: Seq<Object>, depth: nat) -> Seq<char>
    decreases s, 0int, 0int,
{
    if s.len() == 0 {
        Seq::empty()
    } else {
        pretty_items(s.drop_last(), depth) + indent(depth + 1) + pretty(s.last(), depth + 1) + ",\n"@
    }
}

/// The lines of the entries in `ord` from `i` on.
pub open spec fn pretty_from(es: Seq<(Key, Object)>, ord: Seq<int>, i: int, depth: nat) -> Seq<char>
    decreases es, ord.len() - i, 1int,
{
    if i < 0 || i >= ord.len() || !(0 <= ord[i] < es.len()) {
        Seq::empty()
    } else {
        let j = ord[i];
        let k = es[j].0.0@;
        if !k.contains('.') {
            indent(depth + 1) + k + " = "@ + pretty(es[j].1, depth + 1) + ",\n"@ + pretty_from(
                es,
                ord,
                i + 1,
                depth,
            )
        } else {
            let dp = scope_of(k) + "."@;
            let e = scope_end(es, ord, i + 1, dp);
            if i + 1 < e <= ord.len() {
                indent(depth + 1) + scope_of(k) + "{\n"@ + pretty_scope(es, ord, i, e, dp.len(), depth)
                    + indent(depth + 1) + "},\n"@ + pretty_from(es, ord, e, depth)
            } else {
                indent(depth + 1) + k + " = "@ + pretty(es[j].1, depth + 1) + ",\n"@ + pretty_from(
                    es,
                    ord,
                    i + 1,
                    depth,
                )
            }
        }
    }
}

/// The lines of the entries in `ord` from `q` to `e`, their keys without the first `plen` characters.
pub open spec fn pretty_scope(es: Seq<(Key, Object)>, ord: Seq<int>, q: int, e: int, plen: nat, depth: nat) -> Seq<char>
    decreases es, e - q, 0int,
{
    if q < 0 || q >= e || q >= ord.len() || !(0 <= ord[q] < es.len()) {
        Seq::empty()
    } else {
        let j = ord[q];
        let k = es[j].0.0@;
        indent(depth + 2) + k.subrange(plen as int, k.len() as int) + " = "@ + pretty(es[j].1, depth + 2)
            + ",\n"@ + pretty_scope(es, ord, q + 1, e, plen, depth)
    }
}

/// The nesting depth of an object.
pub open spec fn height(o: Object) -> nat
    decreases o, 0int,
{
    match o {
        Object::List(items) => 1 + items_height(items@),
        Object::Mapping(m) => 1 + entries_height(m.entries@),
        _ => 0,
    }
}

pub open spec fn items_height(s: Seq<Object>) -> nat
    decreases s, 0int,
{
    if s.len() == 0 {
        0
    } else {
        let a = items_height(s.drop_last());
        let b = height(s.last());
        if a >= b {
            a
        } else {
            b
        }
    }
}

pub open spec fn entries_height(es: Seq<(Key, Object)>) -> nat
    decreases es, 0int,
{
    if es.len() == 0 {
        0
    } else {
        let a = entries_height(es.drop_last());
        let b = height(es.last().1);
        if a >= b {
            a
        } else {
            b
        }
    }
}

pub proof fn lemma_items_bounds(s: Seq<Object>, i: int)
    requires
        0 <= i < s.len(),
    ensures
        height(s[i]) <= items_height(s),
    decreases s.len(),
{
    if i < s.len() - 1 {
        lemma_items_bounds(s.drop_last(), i);
    }
}

pub proof fn lemma_entries_bounds(es: Seq<(Key, Object)>, i: int)
    requires
        0 <= i < es.len(),
    ensures
        height(es[i].1) <= entries_height(es),
    decreases es.len(),
{
    if i < es.len() - 1 {
        lemma_entries_bounds(es.drop_last(), i);
    }
}

pub proof fn lemma_first_dot(a: Seq<char>, b: Seq<char>)
    requires
        !a.contains('.'),
    ensures
        first_dot(a + seq!['.'] + b) == a.len(),
        (a + seq!['.'] + b).subrange(0, a.len() as int) == a,
        (a + seq!['.'] + b).contains('.'),
    decreases a.len(),
{
    let k = a + seq!['.'] + b;
    assert(k[a.len() as int] == '.');
    if a.len() > 0 {
        assert(a[0] != '.') by {
            if a[0] == '.' {
                assert(a.contains('.'));
            }
        }
        assert(!a.drop_first().contains('.')) by {
            if a.drop_first().contains('.') {
                let x = choose|x: int| 0 <= x < a.drop_first().len() && a.drop_first()[x] == '.';
                assert(a[x + 1] == '.');
            }
        }
        lemma_first_dot(a.drop_first(), b);
        assert(k.drop_first() == a.drop_first() + seq!['.'] + b);
    }
    assert(k.subrange(0, a.len() as int) =~= a);
}

/// True if `a` comes before `b` in byte order.
pub fn str_lt(a: &str, b: &str) -> (r: bool)
    ensures
        r == bytes_lt(a.spec_bytes(), b.spec_bytes()),
{
    let x = a.as_bytes();
    let y = b.as_bytes();
    let mut i: usize = 0;
    proof {
        assert(x@.skip(0) == x@);
        assert(y@.skip(0) == y@);
    }
    while i < x.len() && i < y.len()
        invariant
            i <= x@.len(),
            i <= y@.len(),
            x@ == a.spec_bytes(),
            y@ == b.spec_bytes(),
            bytes_lt(x@, y@) == bytes_lt(x@.skip(i as int), y@.skip(i as int)),
        decreases x@.len() - i,
    {
        if x[i] != y[i] {
            return x[i] < y[i];
        }
        proof {
            assert(x@.skip(i as int).drop_first() == x@.skip(i + 1));
            assert(y@.skip(i as int).drop_first() == y@.skip(i + 1));
        }
        i += 1;
    }
    proof {
        assert(x@.skip(i as int).len() == 0 || y@.skip(i as int).len() == 0);
    }
    i < y.len()
}

/// The position within `rem` of the first entry with the smallest key.
fn find_min(es: &Vec<(Key, Object)>, rem: &Vec<usize>) -> (m: usize)
    requires
        rem@.len() > 0,
        forall|k: int| 0 <= k < rem@.len() ==> rem@[k] < es@.len(),
    ensures
        m == min_pos(es@, rem@.map_values(|x: usize| x as int)),
        m < rem@.len(),
{
    let ghost r = rem@.map_values(|x: usize| x as int);
    let mut best: usize = 0;
    let mut k: usize = 1;
    proof {
        assert(r.subrange(0, 1).len() == 1);
    }
    while k < rem.len()
        invariant
            1 <= k <= rem@.len(),
            r == rem@.map_values(|x: usize| x as int),
            forall|q: int| 0 <= q < rem@.len() ==> rem@[q] < es@.len(),
            best < k,
            best == min_pos(es@, r.subrange(0, k as int)),
        decreases rem@.len() - k,
    {
        proof {
            assert(r.subrange(0, k + 1).drop_last() == r.subrange(0, k as int));
            assert(r.subrange(0, k + 1).last() == rem@[k as int] as int);
            assert(r.subrange(0, k + 1)[best as int] == rem@[best as int] as int);
        }
        if str_lt(es[rem[k]].0.as_str(), es[rem[best]].0.as_str()) {
            best = k;
        }
        k += 1;
    }
    proof {
        assert(r.subrange(0, rem@.len() as int) == r);
    }
    best
}

/// The indices `0, 1, ..., n - 1`.
fn index_list(n: usize) -> (v: Vec<usize>)
    ensures
        v@.map_values(|x: usize| x as int) == indices(n as nat),
        v@.len() == n,
        forall|k: int| 0 <= k < n ==> v@[k] == k,
{
    let mut v: Vec<usize> = Vec::new();
    let mut i: usize = 0;
    while i < n
        invariant
            i <= n,
            v@.len() == i,
            forall|k: int| 0 <= k < i ==> v@[k] == k,
        decreases n - i,
    {
        v.push(i);
        i += 1;
    }
    proof {
        assert(v@.map_values(|x: usize| x as int) =~= indices(n as nat));
    }
    v
}

/// Writes items separated by commas.
fn write_items(items: &Vec<Object>, out: &mut String)
    ensures
        final(out)@ == old(out)@ + text_items(items@),
    decreases items@, 1int,
{
    let ghost start = out@;
    let mut i: usize = 0;
    while i < items.len()
        invariant
            i <= items@.len(),
            out@ == start + text_items(items@.subrange(0, i as int)),
        decreases items@.len() - i,
    {
        if i > 0 {
            out.append(",");
        }
        let v = to_text(&items[i]);
        out.append(v.as_str());
        proof {
            let s = items@.subrange(0, i + 1);
            assert(s.drop_last() == items@.subrange(0, i as int));
            assert(s.last() == items@[i as int]);
            if i == 0 {
                assert(text_items(items@.subrange(0, 0)) == Seq::<char>::empty());
            }
        }
        i += 1;
    }
    proof {
        assert(items@.subrange(0, items@.len() as int) == items@);
    }
}

/// The order in which the entries of a map are written.
fn order_of(es: &Vec<(Key, Object)>) -> (ord: Vec<usize>)
    ensures
        ord@.map_values(|x: usize| x as int) == entry_order(es@),
        forall|k: int| 0 <= k < ord@.len() ==> ord@[k] < es@.len(),
{
    let mut rem = index_list(es.len());
    let mut ord: Vec<usize> = Vec::new();
    while rem.len() > 0
        invariant
            forall|k: int| 0 <= k < rem@.len() ==> rem@[k] < es@.len(),
            forall|k: int| 0 <= k < ord@.len() ==> ord@[k] < es@.len(),
            entry_order(es@) == ord@.map_values(|x: usize| x as int) + sorted_order(
                es@,
                rem@.map_values(|x: usize| x as int),
            ),
        decreases rem@.len(),
    {
        let ghost r = rem@.map_values(|x: usize| x as int);
        let ghost done = ord@.map_values(|x: usize| x as int);
        let m = find_min(es, &rem);
        let j = rem[m];
        proof {
            assert(r[m as int] == j as int);
            assert(r.remove(m as int) == rem@.remove(m as int).map_values(|x: usize| x as int));
            assert(seq![j as int] + sorted_order(es@, r.remove(m as int)) == sorted_order(es@, r));
            assert(ord@.push(j).map_values(|x: usize| x as int) == done.push(j as int));
            assert(done + sorted_order(es@, r) == done.push(j as int) + sorted_order(es@, r.remove(m as int)));
        }
        rem.remove(m);
        ord.push(j);
    }
    proof {
        let done = ord@.map_values(|x: usize| x as int);
        assert(done + Seq::<int>::empty() == done);
    }
    ord
}

/// Writes the entries of a map in order, as `key=value` separated by commas.
fn write_entries(es: &Vec<(Key, Object)>, out: &mut String)
    ensures
        final(out)@ == old(out)@ + text_entries(es@, entry_order(es@)),
    decreases es@, 1int,
{
    let ord = order_of(es);
    let ghost o = ord@.map_values(|x: usize| x as int);
    let ghost start = out@;
    let mut i: usize = 0;
    while i < ord.len()
        invariant
            o == ord@.map_values(|x: usize| x as int),
            forall|k: int| 0 <= k < ord@.len() ==> ord@[k] < es@.len(),
            i <= ord@.len(),
            out@ == start + text_entries(es@, o.subrange(0, i as int)),
        decreases ord@.len() - i,
    {
        let j = ord[i];
        if i > 0 {
            out.append(",");
        }
        out.append(es[j].0.as_str());
        out.append(":");
        let v = to_text(&es[j].1);
        out.append(v.as_str());
        proof {
            let sub = o.subrange(0, i + 1);
            assert(sub.drop_last() == o.subrange(0, i as int));
            assert(sub.last() == j as int);
        }
        i += 1;
    }
    proof {
        assert(o.subrange(0, ord@.len() as int) == o);
    }
}

/// The one-line text of an object.
fn to_text(o: &Object) -> (r: String)
    ensures
        r@ == text_of(*o),
    decreases *o, 0int,
{
    match o {
        Object::Null => String::from_str("null"),
        Object::Bool(b) => if *b {
            String::from_str("true")
        } else {
            String::from_str("false")
        },
        Object::Number(n) => String::from_str(n.literal.as_str()),
        Object::String(s) => {
            let mut out = String::from_str("\"");
            out.append(s.as_str());
            out.append("\"");
            out
        },
        Object::List(items) => {
            let mut out = String::from_str("[");
            write_items(items, &mut out);
            out.append("]");
            out
        },
        Object::Mapping(m) => {
            let mut out = String::from_str("{");
            write_entries(&m.entries, &mut out);
            out.append("}");
            out
        },
    }
}

impl Object {
    /// The one-line text of the object: `null`, `true`, `false`, a number as
    /// written, a string in double quotes, `[a,b]`, or `{k:v,...}` with the
    /// entries in ascending key order.
    pub fn to_string(&self) -> (r: String)
        ensures
            r@ == text_of(*self),
    {
        to_text(self)
    }
}

/// Calls `str::split_once` with a character, which splits a string on the
/// first occurrence of it: the part before it and the part after it.
#[verifier::external_body]
pub(crate) fn split_once_char(s: &str, c: char) -> (r: Option<(&str, &str)>)
    ensures
        r is Some <==> s@.contains(c),
        r matches Some((a, b)) ==> (s@ == a@ + seq![c] + b@ && !a@.contains(c)),
{
    s.split_once(c)
}

/// Calls `str::starts_with`: true if `p` is a prefix of `s`.
#[verifier::external_body]
fn str_starts_with(s: &str, p: &str) -> (r: bool)
    ensures
        r == has_prefix(s@, p@),
{
    s.starts_with(p)
}

/// Calls `str::strip_prefix`: the rest of `s` after `p`, if `s` starts with `p`.
#[verifier::external_body]
fn str_strip_prefix<'b>(s: &'b str, p: &str) -> (r: Option<&'b str>)
    ensures
        r is Some <==> has_prefix(s@, p@),
        r matches Some(x) ==> s@ == p@ + x@,
{
    s.strip_prefix(p)
}

/// Appends `n` levels of indentation.
fn write_indent(out: &mut String, n: usize)
    ensures
        final(out)@ == old(out)@ + indent(n as nat),
{
    let ghost start = out@;
    let mut i: usize = 0;
    while i < n
        invariant
            i <= n,
            out@ == start + indent(i as nat),
        decreases n - i,
    {
        out.append("    ");
        i += 1;
        proof {
            assert(out@ == start + indent(i as nat));
        }
    }
}

/// Writes the pretty text of an object at the given depth.
fn pretty_write(o: &Object, out: &mut String, depth: usize)
    requires
        depth + 2 * height(*o) + 2 <= usize::MAX,
    ensures
        final(out)@ == old(out)@ + pretty(*o, depth as nat),
    decreases *o, 0int,
{
    match o {
        Object::List(items) => {
            if items.len() == 0 {
                out.append("[]");
            } else {
                out.append("[\n");
                write_pretty_items(items, out, depth);
                out.append("]");
            }
        },
        Object::Mapping(m) => {
            let es = &m.entries;
            if es.len() == 0 {
                out.append("{}");
            } else if es.len() == 1 {
                proof {
                    lemma_entries_bounds(es@, 0);
                }
                out.append("{\n");
                write_indent(out, depth + 1);
                out.append(es[0].0.as_str());
                out.append(" = ");
                pretty_write(&es[0].1, out, depth + 1);
                out.append(",\n");
                write_indent(out, depth);
                out.append("}");
            } else {
                out.append("{\n");
                write_pretty_map(es, out, depth);
                write_indent(out, depth);
                out.append("}");
            }
        },
        _ => {
            let t = to_text(o);
            out.append(t.as_str());
        },
    }
}

/// Writes the lines of the items of a list.
fn write_pretty_items(items: &Vec<Object>, out: &mut String, depth: usize)
    requires
        depth + 2 * items_height(items@) + 3 <= usize::MAX,
    ensures
        final(out)@ == old(out)@ + pretty_items(items@, depth as nat),
    decreases items@, 1int,
{
    let ghost start = out@;
    let mut i: usize = 0;
    while i < items.len()
        invariant
            i <= items@.len(),
            depth + 2 * items_height(items@) + 3 <= usize::MAX,
            out@ == start + pretty_items(items@.subrange(0, i as int), depth as nat),
        decreases items@.len() - i,
    {
        proof {
            lemma_items_bounds(items@, i as int);
        }
        write_indent(out, depth + 1);
        pretty_write(&items[i], out, depth + 1);
        out.append(",\n");
        proof {
            let sub = items@.subrange(0, i + 1);
            assert(sub.drop_last() == items@.subrange(0, i as int));
            assert(sub.last() == items@[i as int]);
        }
        i += 1;
    }
    proof {
        assert(items@.subrange(0, items@.len() as int) == items@);
    }
}

/// Writes the line of one entry, its key as it is.
fn write_entry_line(key: &str, v: &Object, out: &mut String, depth: usize)
    requires
        depth + 2 * height(*v) + 3 <= usize::MAX,
    ensures
        final(out)@ == old(out)@ + (indent((depth + 1) as nat) + key@ + " = "@ + pretty(*v, (depth + 1) as nat)
            + ",\n"@),
    decreases *v, 1int,
{
    write_indent(out, depth + 1);
    out.append(key);
    out.append(" = ");
    pretty_write(v, out, depth + 1);
    out.append(",\n");
}

/// Writes the lines of the entries of a map of two or more entries, grouping
/// the keys that share a scope.
fn write_pretty_map(es: &Vec<(Key, Object)>, out: &mut String, depth: usize)
    requires
        depth + 2 * entries_height(es@) + 4 <= usize::MAX,
    ensures
        final(out)@ == old(out)@ + pretty_from(es@, entry_order(es@), 0, depth as nat),
    decreases es@, 1int,
{
    let ord = order_of(es);
    let ghost o = ord@.map_values(|x: usize| x as int);
    let ghost total = pretty_from(es@, o, 0, depth as nat);
    let ghost start = out@;
    let mut i: usize = 0;
    while i < ord.len()
        invariant
            o == ord@.map_values(|x: usize| x as int),
            o == entry_order(es@),
            total == pretty_from(es@, o, 0, depth as nat),
            forall|k: int| 0 <= k < ord@.len() ==> ord@[k] < es@.len(),
            i <= ord@.len(),
            depth + 2 * entries_height(es@) + 4 <= usize::MAX,
            start + total == out@ + pretty_from(es@, o, i as int, depth as nat),
        decreases ord@.len() - i,
    {
        let j = ord[i];
        let key = es[j].0.as_str();
        proof {
            lemma_entries_bounds(es@, j as int);
            assert(o[i as int] == j as int);
        }
        match split_once_char(key, '.') {
            None => {
                write_entry_line(key, &es[j].1, out, depth);
                proof {
                    assert(start + total == out@ + pretty_from(es@, o, i + 1, depth as nat));
                }
                i += 1;
            },
            Some((prefix, rest)) => {
                proof {
                    lemma_first_dot(prefix@, rest@);
                    reveal_strlit(".");
                    assert("."@ == seq!['.']);
                }
                let mut dp = String::from_str(prefix);
                dp.append(".");
                proof {
                    assert(key@ == dp@ + rest@);
                    assert(has_prefix(key@, dp@)) by {
                        assert(key@.subrange(0, dp@.len() as int) =~= dp@);
                    }
                }
                let mut e = i + 1;
                while e < ord.len() && str_starts_with(es[ord[e]].0.as_str(), dp.as_str())
                    invariant
                        o == ord@.map_values(|x: usize| x as int),
                        forall|k: int| 0 <= k < ord@.len() ==> ord@[k] < es@.len(),
                        i < e <= ord@.len(),
                        scope_end(es@, o, i + 1, dp@) == scope_end(es@, o, e as int, dp@),
                        forall|q: int| i < q < e ==> has_prefix(#[trigger] key_chars(es@, o[q]), dp@),
                    decreases ord@.len() - e,
                {
                    proof {
                        assert(o[e as int] == ord@[e as int] as int);
                    }
                    e += 1;
                }
                proof {
                    assert(scope_end(es@, o, e as int, dp@) == e);
                    assert(scope_of(key@) == prefix@);
                }
                if e == i + 1 {
                    let ghost before = out@;
                    write_entry_line(key, &es[j].1, out, depth);
                    proof {
                        assert(start + total == out@ + pretty_from(es@, o, i + 1, depth as nat));
                    }
                    i += 1;
                    continue;
                }
                let ghost before = out@;
                write_indent(out, depth + 1);
                out.append(prefix);
                out.append("{\n");
                let ghost scope_start = out@;
                let ghost scope_all = pretty_scope(es@, o, i as int, e as int, dp@.len(), depth as nat);
                let mut q = i;
                while q < e
                    invariant
                        o == ord@.map_values(|x: usize| x as int),
                        forall|k: int| 0 <= k < ord@.len() ==> ord@[k] < es@.len(),
                        i <= q <= e <= ord@.len(),
                        depth + 2 * entries_height(es@) + 4 <= usize::MAX,
                        forall|x: int| i < x < e ==> has_prefix(#[trigger] key_chars(es@, o[x]), dp@),
                        has_prefix(key_chars(es@, o[i as int]), dp@),
                        scope_all == pretty_scope(es@, o, i as int, e as int, dp@.len(), depth as nat),
                        scope_start + scope_all == out@ + pretty_scope(
                            es@,
                            o,
                            q as int,
                            e as int,
                            dp@.len(),
                            depth as nat,
                        ),
                    decreases e - q,
                {
                    let jq = ord[q];
                    proof {
                        lemma_entries_bounds(es@, jq as int);
                        assert(o[q as int] == jq as int);
                        if q > i {
                            assert(has_prefix(key_chars(es@, o[q as int]), dp@));
                        }
                    }
                    let kq = es[jq].0.as_str();
                    match str_strip_prefix(kq, dp.as_str()) {
                        Some(x) => {
                            let ghost at = out@;
                            write_indent(out, depth + 2);
                            out.append(x);
                            out.append(" = ");
                            pretty_write(&es[jq].1, out, depth + 2);
                            out.append(",\n");
                            proof {
                                assert(x@ == kq@.subrange(dp@.len() as int, kq@.len() as int)) by {
                                    assert(kq@.subrange(dp@.len() as int, kq@.len() as int) =~= x@);
                                }
                                assert(out@ == at + (indent((depth + 2) as nat) + x@ + " = "@ + pretty(
                                    es@[jq as int].1,
                                    (depth + 2) as nat,
                                ) + ",\n"@));
                            }
                        },
                        None => {},
                    }
                    q += 1;
                }
                write_indent(out, depth + 1);
                out.append("},\n");
                proof {
                    assert(pretty_scope(es@, o, e as int, e as int, dp@.len(), depth as nat) == Seq::<char>::empty());
                    assert(out@ == before + (indent((depth + 1) as nat) + scope_of(key@) + "{\n"@ + scope_all + indent(
                        (depth + 1) as nat,
                    ) + "},\n"@));
                    assert(start + total == out@ + pretty_from(es@, o, e as int, depth as nat));
                }
                i = e;
            },
        }
    }
}

impl Object {
    /// Writes the pretty text of the object at the given depth.
    pub fn pfmt(&self, f: &mut String, depth: usize)
        requires
            depth + 2 * height(*self) + 2 <= usize::MAX,
        ensures
            final(f)@ == old(f)@ + pretty(*self, depth as nat),
    {
        pretty_write(self, f, depth);
    }

    /// The pretty text of the object.
    pub fn to_pstring(&self) -> (r: String)
        requires
            2 * height(*self) + 2 <= usize::MAX,
        ensures
            r@ == pretty(*self, 0),
    {
        let mut buf = String::new();
        pretty_write(self, &mut buf, 0);
        buf
    }
}

} // verus!
