//! Data objects of the object notation, and their mathematical model.
use vstd::prelude::*;

verus! {

/// `std::str::Utf8Error`, carried by `Error::InvalidUtf8`.
#[verifier::external_type_specification]
#[verifier::external_body]
pub struct ExUtf8Error(std::str::Utf8Error);

/// The key of a map entry in object notation.
#[derive(Debug, Clone, PartialEq, Eq, PartialOrd, Ord, Hash)]
pub struct Key(pub String);

impl Key {
    /// The key as a string slice.
    pub fn as_str(&self) -> (s: &str)
        ensures
            s@ == self.0@,
    {
        self.0.as_str()
    }
}

/// A key rejected by `Key::try_from`: the illegal character's index and the text.
#[derive(Debug, Clone)]
pub struct InvalidKey {
    pub id: String,
    pub pos: usize,
}

/// A number of object notation, held as its literal text.
///
/// The literal is one that Rust's `f64` parser accepts, other than NaN;
/// its value as a float is left to the caller.
#[derive(Debug, Clone, PartialEq, Eq)]
pub struct Number {
    pub literal: String,
}

/// Describes and locates a specific error in object notation syntax.
#[derive(Debug)]
pub enum Error {
    MissingValue { pos: usize },
    IllegalCharacter { ch: u8, pos: usize },
    InvalidNumber { pos: usize, cause: String },
    NumberIsNan { pos: usize },
    InvalidUtf8(std::str::Utf8Error),
    MissingCloser { open: u8, close: u8, open_pos: usize },
}

/// The entries of a map object: a list of key-value pairs in which no key occurs twice.
#[derive(Debug)]
pub struct ObjectMap {
    pub entries: Vec<(Key, Object)>,
}

/// An instance of a data object.
///
/// Roughly reflects JSON data types. Numbers must start with a digit, `+`, or `-`.
/// Unlike standard JSON, allows for trailing commas.
#[derive(Debug)]
pub enum Object {
    Null,
    Bool(bool),
    Number(Number),
    String(String),
    List(Vec<Object>),
    Mapping(ObjectMap),
}

/// The mathematical value of an object: strings as characters, maps as maps.
pub enum ObjectView {
    Null,
    Bool(bool),
    Number(Seq<char>),
    String(Seq<char>),
    List(Seq<ObjectView>),
    Mapping(Map<Seq<char>, ObjectView>),
}

/// The mathematical value of an error.
pub enum ErrorView {
    MissingValue { pos: int },
    IllegalCharacter { ch: u8, pos: int },
    InvalidNumber { pos: int, cause: Seq<char> },
    NumberIsNan { pos: int },
    InvalidUtf8,
    MissingCloser { open: u8, close: u8, open_pos: int },
}

pub open spec fn view_object(o: Object) -> ObjectView
    decreases o,
{
    match o {
        Object::Null => ObjectView::Null,
        Object::Bool(b) => ObjectView::Bool(b),
        Object::Number(n) => ObjectView::Number(n.literal@),
        Object::String(s) => ObjectView::String(s@),
        Object::List(items) => ObjectView::List(view_items(items@)),
        Object::Mapping(m) => ObjectView::Mapping(view_entries(m.entries@)),
    }
}

pub open spec fn view_items(s: Seq<Object>) -> Seq<ObjectView>
    decreases s,
{
    if s.len() == 0 {
        Seq::empty()
    } else {
        view_items(s.drop_last()).push(view_object(s.last()))
    }
}

/// The map that a list of entries stands for; a later entry for a key wins.
pub open spec fn view_entries(s: Seq<(Key, Object)>) -> Map<Seq<char>, ObjectView>
    decreases s,
{
    if s.len() == 0 {
        Map::empty()
    } else {
        view_entries(s.drop_last()).insert(s.last().0.0@, view_object(s.last().1))
    }
}

/// No key occurs twice among the entries.
pub open spec fn distinct_keys(s: Seq<(Key, Object)>) -> bool {
    forall|i: int, j: int| 0 <= i < s.len() && 0 <= j < s.len() && i != j ==> s[i].0.0@ != s[j].0.0@
}

impl View for Object {
    type V = ObjectView;

    open spec fn view(&self) -> ObjectView {
        view_object(*self)
    }
}

impl View for ObjectMap {
    type V = Map<Seq<char>, ObjectView>;

    open spec fn view(&self) -> Map<Seq<char>, ObjectView> {
        view_entries(self.entries@)
    }
}

impl View for Error {
    type V = ErrorView;

    open spec fn view(&self) -> ErrorView {
        match *self {
            Error::MissingValue { pos } => ErrorView::MissingValue { pos: pos as int },
            Error::IllegalCharacter { ch, pos } => ErrorView::IllegalCharacter { ch, pos: pos as int },
            Error::InvalidNumber { pos, cause } => ErrorView::InvalidNumber {
                pos: pos as int,
                cause: cause@,
            },
            Error::NumberIsNan { pos } => ErrorView::NumberIsNan { pos: pos as int },
            Error::InvalidUtf8(_) => ErrorView::InvalidUtf8,
            Error::MissingCloser { open, close, open_pos } => ErrorView::MissingCloser {
                open,
                close,
                open_pos: open_pos as int,
            },
        }
    }
}

pub proof fn lemma_view_entries_dom(s: Seq<(Key, Object)>, k: Seq<char>)
    ensures
        view_entries(s).contains_key(k) <==> exists|i: int| 0 <= i < s.len() && #[trigger] s[i].0.0@ == k,
    decreases s.len(),
{
    if s.len() > 0 {
        lemma_view_entries_dom(s.drop_last(), k);
        if view_entries(s.drop_last()).contains_key(k) {
            let i = choose|i: int| 0 <= i < s.drop_last().len() && #[trigger] s.drop_last()[i].0.0@ == k;
            assert(s[i].0.0@ == k);
        }
        if exists|i: int| 0 <= i < s.len() && #[trigger] s[i].0.0@ == k {
            let i = choose|i: int| 0 <= i < s.len() && #[trigger] s[i].0.0@ == k;
            if i < s.len() - 1 {
                assert(s.drop_last()[i].0.0@ == k);
            }
        }
    }
}

/// With distinct keys, the map has one key per entry.
pub proof fn lemma_view_entries_len(s: Seq<(Key, Object)>)
    requires
        distinct_keys(s),
    ensures
        view_entries(s).dom().finite(),
        view_entries(s).dom().len() == s.len(),
    decreases s.len(),
{
    if s.len() > 0 {
        let t = s.drop_last();
        assert(distinct_keys(t));
        lemma_view_entries_len(t);
        lemma_view_entries_dom(t, s.last().0.0@);
        assert(!view_entries(t).contains_key(s.last().0.0@)) by {
            if view_entries(t).contains_key(s.last().0.0@) {
                let i = choose|i: int| 0 <= i < t.len() && #[trigger] t[i].0.0@ == s.last().0.0@;
                assert(s[i] == t[i]);
            }
        }
    }
}

/// With distinct keys, the value for the key of entry `i` is that entry's value.
pub proof fn lemma_view_entries_at(s: Seq<(Key, Object)>, i: int)
    requires
        distinct_keys(s),
        0 <= i < s.len(),
    ensures
        view_entries(s).contains_key(s[i].0.0@),
        view_entries(s)[s[i].0.0@] == view_object(s[i].1),
    decreases s.len(),
{
    if i < s.len() - 1 {
        assert(distinct_keys(s.drop_last()));
        assert(s.drop_last()[i] == s[i]);
        lemma_view_entries_at(s.drop_last(), i);
        assert(s.last().0.0@ != s[i].0.0@);
    }
}

/// Replacing the value of an entry updates the map at its key.
pub proof fn lemma_view_entries_update(s: Seq<(Key, Object)>, i: int, k: Key, v: Object)
    requires
        distinct_keys(s),
        0 <= i < s.len(),
        k.0@ == s[i].0.0@,
    ensures
        view_entries(s.update(i, (k, v))) == view_entries(s).insert(s[i].0.0@, view_object(v)),
        distinct_keys(s.update(i, (k, v))),
    decreases s.len(),
{
    let t = s.update(i, (k, v));
    if i == s.len() - 1 {
        assert(t.drop_last() == s.drop_last());
        lemma_view_entries_dom(s.drop_last(), s[i].0.0@);
        assert(view_entries(t) == view_entries(s.drop_last()).insert(s[i].0.0@, view_object(v)));
        assert(view_entries(s) == view_entries(s.drop_last()).insert(s[i].0.0@, view_object(s[i].1)));
        assert(view_entries(t) =~= view_entries(s).insert(s[i].0.0@, view_object(v)));
    } else {
        assert(distinct_keys(s.drop_last()));
        assert(t.drop_last() == s.drop_last().update(i, (k, v)));
        assert(s.drop_last()[i] == s[i]);
        lemma_view_entries_update(s.drop_last(), i, k, v);
        assert(s.last().0.0@ != s[i].0.0@);
        assert(t.last() == s.last());
        assert(view_entries(t) =~= view_entries(s).insert(s[i].0.0@, view_object(v)));
    }
}

impl ObjectMap {
    /// An empty map.
    pub fn new() -> (m: ObjectMap)
        ensures
            m@ == Map::<Seq<char>, ObjectView>::empty(),
            m.wf(),
    {
        ObjectMap { entries: Vec::new() }
    }

    /// No key occurs twice.
    pub open spec fn wf(&self) -> bool {
        distinct_keys(self.entries@)
    }

    /// Number of entries, which is the number of keys.
    pub fn len(&self) -> (n: usize)
        ensures
            n == self.entries@.len(),
            self.wf() ==> n == self@.dom().len(),
    {
        proof {
            if self.wf() {
                lemma_view_entries_len(self.entries@);
            }
        }
        self.entries.len()
    }

    /// Index of the entry with the given key, if any.
    pub fn find(&self, key: &str) -> (r: Option<usize>)
        ensures
            match r {
                Some(i) => i < self.entries@.len() && self.entries@[i as int].0.0@ == key@,
                None => forall|i: int|
                    0 <= i < self.entries@.len() ==> #[trigger] self.entries@[i].0.0@ != key@,
            },
    {
        let mut i: usize = 0;
        while i < self.entries.len()
            invariant
                i <= self.entries@.len(),
                forall|j: int| 0 <= j < i ==> #[trigger] self.entries@[j].0.0@ != key@,
            decreases self.entries@.len() - i,
        {
            if str_eq(self.entries[i].0.as_str(), key) {
                return Some(i);
            }
            i += 1;
        }
        None
    }

    /// Sets the value of a key, replacing any earlier value.
    pub fn insert(&mut self, key: Key, value: Object)
        requires
            old(self).wf(),
        ensures
            final(self).wf(),
            final(self)@ == old(self)@.insert(key.0@, value@),
    {
        match self.find(key.as_str()) {
            Some(i) => {
                proof {
                    lemma_view_entries_update(self.entries@, i as int, key, value);
                }
                self.entries.set(i, (key, value));
            },
            None => {
                let ghost old_entries = self.entries@;
                self.entries.push((key, value));
                assert(self.entries@.drop_last() == old_entries);
                assert(distinct_keys(self.entries@)) by {
                    assert forall|i: int, j: int|
                        0 <= i < self.entries@.len() && 0 <= j < self.entries@.len() && i != j
                        implies self.entries@[i].0.0@ != self.entries@[j].0.0@ by {
                        if i < old_entries.len() && j < old_entries.len() {
                            assert(self.entries@[i] == old_entries[i]);
                            assert(self.entries@[j] == old_entries[j]);
                        }
                    }
                }
            },
        }
    }

    /// The value of a key, if present.
    pub fn get(&self, key: &str) -> (r: Option<&Object>)
        requires
            self.wf(),
        ensures
            match r {
                Some(v) => self@.contains_key(key@) && self@[key@] == v@,
                None => !self@.contains_key(key@),
            },
    {
        proof {
            lemma_view_entries_dom(self.entries@, key@);
        }
        match self.find(key) {
            Some(i) => {
                proof {
                    lemma_view_entries_at(self.entries@, i as int);
                }
                Some(&self.entries[i].1)
            },
            None => None,
        }
    }
}

/// Compares two strings, by calling `str`'s `==`.
#[verifier::external_body]
pub(crate) fn str_eq(a: &str, b: &str) -> (r: bool)
    ensures
        r == (a@ == b@),
{
    a == b
}

} // verus!
