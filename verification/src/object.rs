use vstd::prelude::*;

use crate::decimal::{is_writable_real, writable_real};
use crate::number::push_all;
use crate::text;

verus! {

/// An object number and a generation number.
pub type ObjectId = (u32, u16);

/// How a string object is written: between parentheses or as hexadecimal digits.
#[derive(Debug, Clone, Copy, PartialEq, Eq, Structural)]
pub enum StringFormat {
    Literal,
    Hexadecimal,
}

/// A real number, held as the shortest decimal text that reads back as the same
/// single-precision value, in the scientific form `[-]D[.D]e[-]N` that Rust's `{:e}`
/// prints; `None` stands for a value that is not finite (NaN or an infinity).
#[derive(Debug, PartialEq)]
pub struct RealNumber {
    scientific: Option<Vec<u8>>,
}

impl RealNumber {
    #[verifier::type_invariant]
    spec fn well_formed(self) -> bool {
        self.scientific matches Some(t) ==> writable_real(t@)
    }

    /// The scientific text of a finite value; `None` for a value that is not finite.
    pub closed spec fn text(&self) -> Option<Seq<u8>> {
        match self.scientific {
            Some(t) => Some(t@),
            None => None,
        }
    }

    /// A finite real number from its shortest scientific text, such as `1.5e0` or
    /// `-1e-45`; `None` for text without the shape `[-]D[.D]e[-]N`, or whose decimal point
    /// cannot be placed within `i32`.
    pub fn from_scientific(text: Vec<u8>) -> (r: Option<RealNumber>)
        ensures
            r matches Some(x) ==> x.text() == Some(text@),
            r is None <==> !writable_real(text@),
    {
        if is_writable_real(text.as_slice()) {
            Some(RealNumber { scientific: Some(text) })
        } else {
            None
        }
    }

    /// A value that is not finite: NaN or an infinity.
    pub fn non_finite() -> (r: RealNumber)
        ensures
            r.text() is None,
    {
        RealNumber { scientific: None }
    }

    /// A copy of this number.
    pub fn copy(&self) -> (r: RealNumber)
        ensures
            r.text() == self.text(),
    {
        proof {
            use_type_invariant(self);
        }
        match &self.scientific {
            Some(t) => RealNumber { scientific: Some(copy_bytes(t.as_slice())) },
            None => RealNumber { scientific: None },
        }
    }

    /// The scientific text of a finite value.
    pub fn scientific(&self) -> (r: Option<&Vec<u8>>)
        ensures
            r matches Some(t) ==> self.text() == Some(t@),
            r is None ==> self.text() is None,
            r matches Some(t) ==> writable_real(t@),
    {
        proof {
            use_type_invariant(self);
        }
        match &self.scientific {
            Some(t) => Some(t),
            None => None,
        }
    }
}

/// A PDF object.
#[derive(Debug, PartialEq)]
pub enum Object {
    Null,
    Boolean(bool),
    Integer(i64),
    Real(RealNumber),
    Name(Vec<u8>),
    String(Vec<u8>, StringFormat),
    Array(Vec<Object>),
    Dictionary(Dictionary),
    Stream(Stream),
    Reference(ObjectId),
}

/// A dictionary: keys in insertion order, each key at most once when built with `set`.
#[derive(Debug, PartialEq)]
pub struct Dictionary {
    pub entries: Vec<(Vec<u8>, Object)>,
}

/// A stream object: its dictionary and its raw content.
#[derive(Debug, PartialEq)]
pub struct Stream {
    pub dict: Dictionary,
    pub content: Vec<u8>,
    pub allows_compression: bool,
    pub start_position: Option<usize>,
}

/// The entries of a dictionary: each key by its bytes, with its value.
pub type DictView = Seq<(Seq<u8>, Object)>;

/// The index of the first entry whose key is `key`.
pub open spec fn key_index(pairs: DictView, key: Seq<u8>) -> Option<int>
    decreases pairs.len(),
{
    if pairs.len() == 0 {
        None
    } else {
        match key_index(pairs.drop_last(), key) {
            Some(i) => Some(i),
            None => if pairs.last().0 == key {
                Some(pairs.len() - 1)
            } else {
                None
            },
        }
    }
}

/// The value stored under `key`, if any.
pub open spec fn key_value(pairs: DictView, key: Seq<u8>) -> Option<Object> {
    match key_index(pairs, key) {
        Some(i) => Some(pairs[i].1),
        None => None,
    }
}

/// The entries after setting `key` to `value`: an existing entry keeps its place.
pub open spec fn set_pairs(pairs: DictView, key: Seq<u8>, value: Object) -> DictView {
    match key_index(pairs, key) {
        Some(i) => pairs.update(i, (key, value)),
        None => pairs.push((key, value)),
    }
}

/// The entries after removing the first entry under `key`.
pub open spec fn remove_pairs(pairs: DictView, key: Seq<u8>) -> DictView {
    match key_index(pairs, key) {
        Some(i) => pairs.remove(i),
        None => pairs,
    }
}

/// The entries of a vector of pairs, each key by its bytes.
pub open spec fn pairs_view(entries: Seq<(Vec<u8>, Object)>) -> DictView {
    Seq::new(entries.len(), |i: int| (entries[i].0@, entries[i].1))
}

pub proof fn lemma_key_index_bounds(pairs: DictView, key: Seq<u8>)
    ensures
        key_index(pairs, key) matches Some(i) ==> 0 <= i < pairs.len() && pairs[i].0 == key,
        key_index(pairs, key) is None ==> forall|j: int| 0 <= j < pairs.len() ==> pairs[j].0 != key,
        key_index(pairs, key) matches Some(i) ==> forall|j: int| 0 <= j < i ==> pairs[j].0 != key,
    decreases pairs.len(),
{
    if pairs.len() > 0 {
        let p = pairs.drop_last();
        lemma_key_index_bounds(p, key);
        assert(forall|j: int| 0 <= j < p.len() ==> p[j] == pairs[j]);
    }
}

pub proof fn lemma_key_index_first(pairs: DictView, key: Seq<u8>, i: int)
    requires
        0 <= i < pairs.len(),
        pairs[i].0 == key,
        forall|j: int| 0 <= j < i ==> pairs[j].0 != key,
    ensures
        key_index(pairs, key) == Some(i),
    decreases pairs.len(),
{
    if i < pairs.len() - 1 {
        lemma_key_index_first(pairs.drop_last(), key, i);
    } else {
        lemma_key_index_bounds(pairs.drop_last(), key);
    }
}

pub proof fn lemma_key_index_none(pairs: DictView, key: Seq<u8>)
    requires
        forall|j: int| 0 <= j < pairs.len() ==> pairs[j].0 != key,
    ensures
        key_index(pairs, key) is None,
    decreases pairs.len(),
{
    if pairs.len() > 0 {
        lemma_key_index_none(pairs.drop_last(), key);
    }
}

/// Setting a key makes it map to the new value.
pub proof fn lemma_set_then_lookup(pairs: DictView, key: Seq<u8>, value: Object)
    ensures
        key_value(set_pairs(pairs, key, value), key) == Some(value),
{
    lemma_key_index_bounds(pairs, key);
    let r = set_pairs(pairs, key, value);
    match key_index(pairs, key) {
        Some(i) => {
            lemma_key_index_first(r, key, i);
        },
        None => {
            lemma_key_index_first(r, key, pairs.len() as int);
        },
    }
}

/// Setting a key leaves every other key's value as it was.
pub proof fn lemma_set_other_lookup(pairs: DictView, key: Seq<u8>, value: Object, other: Seq<u8>)
    requires
        other != key,
    ensures
        key_value(set_pairs(pairs, key, value), other) == key_value(pairs, other),
{
    lemma_key_index_bounds(pairs, key);
    lemma_key_index_bounds(pairs, other);
    let r = set_pairs(pairs, key, value);
    match key_index(pairs, other) {
        Some(i) => {
            lemma_key_index_first(r, other, i);
        },
        None => {
            lemma_key_index_none(r, other);
        },
    }
}

/// Whether two byte strings are equal.
pub fn bytes_eq(a: &[u8], b: &[u8]) -> (r: bool)
    ensures
        r == (a@ == b@),
{
    if a.len() != b.len() {
        return false;
    }
    let mut i: usize = 0;
    while i < a.len()
        invariant
            a@.len() == b@.len(),
            i <= a@.len(),
            forall|j: int| 0 <= j < i ==> a@[j] == b@[j],
        decreases a@.len() - i,
    {
        if a[i] != b[i] {
            return false;
        }
        i = i + 1;
    }
    assert(a@ =~= b@);
    true
}

/// A fresh copy of a byte string.
pub fn copy_bytes(src: &[u8]) -> (r: Vec<u8>)
    ensures
        r@ == src@,
{
    let mut r: Vec<u8> = Vec::new();
    push_all(&mut r, src);
    r
}

impl View for Dictionary {
    type V = DictView;

    open spec fn view(&self) -> DictView {
        pairs_view(self.entries@)
    }
}

impl Dictionary {
    /// An empty dictionary.
    pub fn new() -> (d: Dictionary)
        ensures
            d@ == Seq::<(Seq<u8>, Object)>::empty(),
    {
        let d = Dictionary { entries: Vec::new() };
        assert(d@ =~= Seq::<(Seq<u8>, Object)>::empty());
        d
    }

    /// The entries in their order.
    pub fn entries(&self) -> (r: &Vec<(Vec<u8>, Object)>)
        ensures
            pairs_view(r@) == self@,
    {
        &self.entries
    }

    /// The number of entries.
    pub fn len(&self) -> (n: usize)
        ensures
            n == self@.len(),
    {
        self.entries.len()
    }

    /// The position of the first entry under `key`.
    pub fn find(&self, key: &[u8]) -> (r: Option<usize>)
        ensures
            r matches Some(i) ==> key_index(self@, key@) == Some(i as int) && i < self@.len(),
            r is None ==> key_index(self@, key@) is None,
    {
        let mut i: usize = 0;
        while i < self.entries.len()
            invariant
                i <= self.entries@.len(),
                forall|j: int| 0 <= j < i ==> (#[trigger] self@[j]).0 != key@,
            decreases self.entries@.len() - i,
        {
            if bytes_eq(self.entries[i].0.as_slice(), key) {
                proof {
                    lemma_key_index_first(self@, key@, i as int);
                }
                return Some(i);
            }
            i = i + 1;
        }
        proof {
            lemma_key_index_none(self@, key@);
        }
        None
    }

    /// Whether an entry under `key` exists.
    pub fn has(&self, key: &[u8]) -> (r: bool)
        ensures
            r == (key_index(self@, key@) is Some),
    {
        self.find(key).is_some()
    }

    /// The value under `key`.
    pub fn get(&self, key: &[u8]) -> (r: Option<&Object>)
        ensures
            r matches Some(v) ==> key_value(self@, key@) == Some(*v),
            r is None ==> key_value(self@, key@) is None,
    {
        proof {
            lemma_key_index_bounds(self@, key@);
        }
        match self.find(key) {
            Some(i) => Some(&self.entries[i].1),
            None => None,
        }
    }

    /// Sets `key` to `value`: an existing entry is updated in place, a new one goes last.
    pub fn set(&mut self, key: Vec<u8>, value: Object)
        ensures
            final(self)@ == set_pairs(old(self)@, key@, value),
    {
        match self.find(key.as_slice()) {
            Some(i) => {
                let mut entries = Vec::new();
                std::mem::swap(&mut entries, &mut self.entries);
                let (_old_key, _old_value) = entries.remove(i);
                entries.insert(i, (key, value));
                self.entries = entries;
                assert(self@ =~= set_pairs(old(self)@, key@, value));
            },
            None => {
                let ghost k = key@;
                self.entries.push((key, value));
                assert(self@ =~= set_pairs(old(self)@, k, value));
            },
        }
    }

    /// Removes the entry under `key` and returns its value.
    pub fn remove(&mut self, key: &[u8]) -> (r: Option<Object>)
        ensures
            final(self)@ == remove_pairs(old(self)@, key@),
            r == key_value(old(self)@, key@),
    {
        match self.find(key) {
            Some(i) => {
                let (_k, v) = self.entries.remove(i);
                assert(self@ =~= remove_pairs(old(self)@, key@));
                Some(v)
            },
            None => None,
        }
    }
}

impl Stream {
    /// A stream with `content`, whose dictionary records the content's length under `Length`.
    pub fn new(dict: Dictionary, content: Vec<u8>) -> (s: Stream)
        ensures
            s.dict@ == set_pairs(dict@, text::key_length(), Object::Integer(content@.len() as i64)),
            s.content@ == content@,
            s.allows_compression,
            s.start_position is None,
    {
        let mut dict = dict;
        let len = content.len() as i64;
        dict.set(text::key_length_bytes(), Object::Integer(len));
        Stream { dict, content, allows_compression: true, start_position: None }
    }
}

} // verus!
