use vstd::prelude::*;

use crate::object::{
    bytes_eq, key_index, key_value, lemma_key_index_bounds, Dictionary, DictView, Object, ObjectId,
};
use crate::text;
use crate::xref::{Xref, XrefType};


verus! {

/// Whether identifier `a` sorts before `b`: by object number, then by generation.
pub open spec fn id_less(a: ObjectId, b: ObjectId) -> bool {
    a.0 < b.0 || (a.0 == b.0 && a.1 < b.1)
}

/// Whether the identifiers of a sequence of objects strictly increase.
pub open spec fn ids_increase(s: Seq<(ObjectId, Object)>) -> bool {
    forall|i: int, j: int| 0 <= i < j < s.len() ==> id_less((#[trigger] s[i]).0, (#[trigger] s[j]).0)
}

/// The objects of a sequence, by identifier.
pub open spec fn objects_map(s: Seq<(ObjectId, Object)>) -> Map<ObjectId, Object> {
    Map::new(
        |id: ObjectId| exists|i: int| 0 <= i < s.len() && s[i].0 == id,
        |id: ObjectId| s[choose|i: int| 0 <= i < s.len() && s[i].0 == id].1,
    )
}

/// The objects of a document, in increasing order of their identifiers.
#[derive(Debug, PartialEq)]
pub struct ObjectMap {
    items: Vec<(ObjectId, Object)>,
}

impl View for ObjectMap {
    type V = Seq<(ObjectId, Object)>;

    closed spec fn view(&self) -> Seq<(ObjectId, Object)> {
        self.items@
    }
}

impl ObjectMap {
    #[verifier::type_invariant]
    spec fn ordered(self) -> bool {
        ids_increase(self.items@)
    }

    /// No objects.
    pub fn new() -> (m: ObjectMap)
        ensures
            m@ == Seq::<(ObjectId, Object)>::empty(),
    {
        ObjectMap { items: Vec::new() }
    }

    /// The number of objects.
    pub fn len(&self) -> (n: usize)
        ensures
            n == self@.len(),
            ids_increase(self@),
    {
        proof {
            use_type_invariant(self);
        }
        self.items.len()
    }

    /// The object at position `i` in identifier order, with its identifier.
    pub fn at(&self, i: usize) -> (r: (ObjectId, &Object))
        requires
            i < self@.len(),
        ensures
            r.0 == self@[i as int].0,
            *r.1 == self@[i as int].1,
            ids_increase(self@),
    {
        proof {
            use_type_invariant(self);
        }
        (self.items[i].0, &self.items[i].1)
    }

    /// The first position whose identifier is not below `id`.
    fn lower_bound(&self, id: ObjectId) -> (p: usize)
        ensures
            p <= self@.len(),
            forall|i: int| 0 <= i < p ==> id_less(self@[i].0, id),
            forall|i: int| p <= i < self@.len() ==> !id_less(self@[i].0, id),
    {
        proof {
            use_type_invariant(self);
        }
        let mut lo: usize = 0;
        let mut hi: usize = self.items.len();
        while lo < hi
            invariant
                0 <= lo <= hi <= self.items@.len(),
                ids_increase(self.items@),
                forall|i: int| 0 <= i < lo ==> id_less(self.items@[i].0, id),
                forall|i: int| hi <= i < self.items@.len() ==> !id_less(self.items@[i].0, id),
            decreases hi - lo,
        {
            let mid = lo + (hi - lo) / 2;
            let k = self.items[mid].0;
            if k.0 < id.0 || (k.0 == id.0 && k.1 < id.1) {
                lo = mid + 1;
            } else {
                hi = mid;
            }
        }
        lo
    }

    /// The object under `id`.
    pub fn get(&self, id: ObjectId) -> (r: Option<&Object>)
        ensures
            r matches Some(o) ==> objects_map(self@).contains_key(id) && objects_map(self@)[id]
                == *o,
            r is None ==> !objects_map(self@).contains_key(id),
            ids_increase(self@),
    {
        proof {
            use_type_invariant(self);
        }
        let p = self.lower_bound(id);
        if p < self.items.len() && self.items[p].0.0 == id.0 && self.items[p].0.1 == id.1 {
            proof {
                let s = self@;
                assert(exists|i: int| 0 <= i < s.len() && s[i].0 == id) by {
                    assert(s[p as int].0 == id);
                }
                let c = choose|i: int| 0 <= i < s.len() && s[i].0 == id;
                if c != p {
                    if c < p {
                        assert(id_less(s[c].0, s[p as int].0));
                    } else {
                        assert(id_less(s[p as int].0, s[c].0));
                    }
                }
            }
            Some(&self.items[p].1)
        } else {
            proof {
                let s = self@;
                if exists|i: int| 0 <= i < s.len() && s[i].0 == id {
                    let c = choose|i: int| 0 <= i < s.len() && s[i].0 == id;
                    if c > p {
                        assert(id_less(s[p as int].0, s[c].0));
                    }
                }
            }
            None
        }
    }

    /// Sets the object under `id`, keeping the identifiers in order, and returns the
    /// object it replaces.
    pub fn insert(&mut self, id: ObjectId, object: Object) -> (r: Option<Object>)
        ensures
            ids_increase(final(self)@),
            objects_map(final(self)@) == objects_map(old(self)@).insert(id, object),
            r is Some <==> objects_map(old(self)@).contains_key(id),
            r matches Some(o) ==> o == objects_map(old(self)@)[id],
    {
        proof {
            use_type_invariant(&*self);
        }
        let p = self.lower_bound(id);
        let ghost s = self.items@;
        let mut items = Vec::new();
        std::mem::swap(&mut items, &mut self.items);
        let replace = p < items.len() && items[p].0.0 == id.0 && items[p].0.1 == id.1;
        let ghost entry = (id, object);
        let previous = if replace {
            let (_k, old_object) = items.remove(p);
            items.insert(p, (id, object));
            assert(items@ =~= s.update(p as int, entry));
            Some(old_object)
        } else {
            items.insert(p, (id, object));
            None
        };
        proof {
            lemma_insert_at(s, items@, p as int, id, object, replace);
            if replace {
                assert(exists|i: int| 0 <= i < s.len() && s[i].0 == id) by {
                    assert(s[p as int].0 == id);
                }
                let c = choose|i: int| 0 <= i < s.len() && s[i].0 == id;
                if c != p {
                    if c < p {
                        assert(id_less(s[c].0, s[p as int].0));
                    } else {
                        assert(id_less(s[p as int].0, s[c].0));
                    }
                }
            } else if exists|i: int| 0 <= i < s.len() && s[i].0 == id {
                let c = choose|i: int| 0 <= i < s.len() && s[i].0 == id;
                if c > p {
                    assert(id_less(s[p as int].0, s[c].0));
                }
            }
        }
        self.items = items;
        previous
    }
}

/// Placing an object at its lower bound keeps the identifiers in order and updates the map.
proof fn lemma_insert_at(
    s: Seq<(ObjectId, Object)>,
    t: Seq<(ObjectId, Object)>,
    p: int,
    id: ObjectId,
    object: Object,
    replace: bool,
)
    requires
        ids_increase(s),
        0 <= p <= s.len(),
        forall|i: int| 0 <= i < p ==> id_less(s[i].0, id),
        forall|i: int| p <= i < s.len() ==> !id_less(s[i].0, id),
        replace == (p < s.len() && s[p].0 == id),
        replace ==> t == s.update(p, (id, object)),
        !replace ==> t == s.insert(p, (id, object)),
    ensures
        ids_increase(t),
        objects_map(t) == objects_map(s).insert(id, object),
{
    assert forall|i: int, j: int| 0 <= i < j < t.len() implies id_less(
        (#[trigger] t[i]).0,
        (#[trigger] t[j]).0,
    ) by {
        if replace {
            if i == p {
                assert(id_less(s[i].0, s[j].0));
            } else if j == p {
                assert(id_less(s[i].0, s[j].0));
            } else {
                assert(id_less(s[i].0, s[j].0));
            }
        } else {
            if i < p && j == p {
            } else if i < p && j > p {
                assert(t[j] == s[j - 1]);
            } else if i == p {
                assert(t[j] == s[j - 1]);
                assert(!id_less(s[j - 1].0, id));
                assert(s[j - 1].0 != id);
            } else if i > p {
                assert(t[i] == s[i - 1] && t[j] == s[j - 1]);
                assert(id_less(s[i - 1].0, s[j - 1].0));
            } else {
                assert(t[i] == s[i] && t[j] == s[j]);
            }
        }
    }
    let m = objects_map(s).insert(id, object);
    let mt = objects_map(t);
    assert forall|k: ObjectId| #[trigger] mt.contains_key(k) == m.contains_key(k) by {
        if mt.contains_key(k) && k != id {
            let i = choose|i: int| 0 <= i < t.len() && t[i].0 == k;
            if replace || i < p {
                assert(s[i].0 == k);
            } else {
                assert(s[i - 1].0 == k);
            }
        }
        if objects_map(s).contains_key(k) {
            let i = choose|i: int| 0 <= i < s.len() && s[i].0 == k;
            if replace || i < p {
                assert(t[i].0 == k);
            } else {
                assert(t[i + 1].0 == k);
            }
        }
        if k == id {
            assert(t[p].0 == k);
        }
    }
    assert forall|k: ObjectId| #[trigger] mt.contains_key(k) implies mt[k] == m[k] by {
        let i = choose|i: int| 0 <= i < t.len() && t[i].0 == k;
        assert forall|j: int| 0 <= j < t.len() && t[j].0 == k implies j == i by {
            if j < i {
                assert(id_less(t[j].0, t[i].0));
            } else if i < j {
                assert(id_less(t[i].0, t[j].0));
            }
        }
        if k == id {
            assert(t[p].0 == k);
        } else {
            let si = choose|si: int| 0 <= si < s.len() && s[si].0 == k;
            assert forall|j: int| 0 <= j < s.len() && s[j].0 == k implies j == si by {
                if j < si {
                    assert(id_less(s[j].0, s[si].0));
                } else if si < j {
                    assert(id_less(s[si].0, s[j].0));
                }
            }
            if replace || i < p {
                assert(s[i].0 == k);
                assert(t[i] == s[i]);
            } else {
                assert(s[i - 1].0 == k);
                assert(t[i] == s[i - 1]);
            }
        }
    }
    assert(mt =~= m);
}

/// The state of an encrypted document that was opened with its password: what a save
/// needs to write new objects under the same encryption.
#[derive(Debug, PartialEq)]
pub struct EncryptionState {
    encrypt_object_id: Option<ObjectId>,
}

impl EncryptionState {
    /// A state, with the identifier of the `/Encrypt` dictionary when it was recorded.
    pub fn new(encrypt_object_id: Option<ObjectId>) -> (s: EncryptionState)
        ensures
            s.encrypt_id() == encrypt_object_id,
    {
        EncryptionState { encrypt_object_id }
    }

    /// The identifier of the `/Encrypt` dictionary, when it was recorded.
    pub closed spec fn encrypt_id(&self) -> Option<ObjectId> {
        self.encrypt_object_id
    }

    /// The identifier of the `/Encrypt` dictionary, when it was recorded.
    pub fn encrypt_object_id(&self) -> (r: Option<ObjectId>)
        ensures
            r == self.encrypt_id(),
    {
        self.encrypt_object_id
    }
}

/// A PDF document in memory.
#[derive(Debug)]
pub struct Document {
    /// The version in the header, such as `1.7`.
    pub version: String,
    /// The bytes of the comment line after the header that marks the file as binary.
    pub binary_mark: Vec<u8>,
    /// The trailer dictionary.
    pub trailer: Dictionary,
    /// The cross-reference data the document was read with; a new file keeps its type.
    pub reference_table: Xref,
    /// The indirect objects.
    pub objects: ObjectMap,
    /// The highest object number in use.
    pub max_id: u32,
    /// Present when the document was decrypted on loading.
    pub encryption_state: Option<EncryptionState>,
}

/// The default binary mark.
pub open spec fn default_mark() -> Seq<u8> {
    seq![0xBBu8, 0xADu8, 0xC0u8, 0xDEu8]
}

impl Document {
    /// An empty document of version 1.4, written with a cross-reference stream.
    pub fn new() -> (d: Document)
        ensures
            d.version@ == seq!['1', '.', '4'],
            d.binary_mark@ == default_mark(),
            d.trailer@ == Seq::<(Seq<u8>, Object)>::empty(),
            d.reference_table.entries@ == Map::<u32, crate::xref::XrefEntry>::empty(),
            d.reference_table.cross_reference_type == XrefType::CrossReferenceStream,
            d.reference_table.size == 0,
            d.objects@ == Seq::<(ObjectId, Object)>::empty(),
            d.max_id == 0,
            d.encryption_state is None,
    {
        proof {
            reveal_strlit("1.4");
        }
        Document::with_version("1.4")
    }

    /// An empty document of the given version, written with a cross-reference stream.
    pub fn with_version(version: &str) -> (d: Document)
        ensures
            d.version@ == version@,
            d.binary_mark@ == default_mark(),
            d.trailer@ == Seq::<(Seq<u8>, Object)>::empty(),
            d.reference_table.entries@ == Map::<u32, crate::xref::XrefEntry>::empty(),
            d.reference_table.cross_reference_type == XrefType::CrossReferenceStream,
            d.reference_table.size == 0,
            d.objects@ == Seq::<(ObjectId, Object)>::empty(),
            d.max_id == 0,
            d.encryption_state is None,
    {
        let mark = vec![0xBBu8, 0xADu8, 0xC0u8, 0xDEu8];
        assert(mark@ =~= default_mark());
        Document {
            version: <String as vstd::string::StringExecFns>::from_str(version),
            binary_mark: mark,
            trailer: Dictionary::new(),
            reference_table: Xref::new(0, XrefType::CrossReferenceStream),
            objects: ObjectMap::new(),
            max_id: 0,
            encryption_state: None,
        }
    }
}

/// The type of a dictionary: its `Type` name, or `Linearized` for a dictionary that has
/// a `Linearized` entry and no `Type` name.
pub open spec fn dict_type_name(d: DictView) -> Option<Seq<u8>> {
    match key_value(d, text::key_type()) {
        Some(Object::Name(n)) => Some(n@),
        _ => if key_index(d, text::key_linearized()) is Some {
            Some(text::key_linearized())
        } else {
            None
        },
    }
}

/// The type of an object: that of its dictionary, for a dictionary or a stream.
pub open spec fn object_type(o: Object) -> Option<Seq<u8>> {
    match o {
        Object::Dictionary(d) => dict_type_name(d@),
        Object::Stream(s) => dict_type_name(s.dict@),
        _ => None,
    }
}

/// Whether an object is cross-reference machinery that a save generates anew and so
/// never copies: an object stream, a cross-reference stream or a linearization dictionary.
pub open spec fn is_generated_kind(o: Object) -> bool {
    match object_type(o) {
        Some(t) => t == text::name_objstm() || t == text::name_xref() || t
            == text::key_linearized(),
        None => false,
    }
}

/// Whether an object is an object stream, a cross-reference stream or a linearization
/// dictionary, by its type.
pub fn is_generated(o: &Object) -> (r: bool)
    ensures
        r == is_generated_kind(*o),
{
    let d = match o {
        Object::Dictionary(d) => d,
        Object::Stream(s) => &s.dict,
        _ => return false,
    };
    let linearized = text::key_linearized_bytes();
    proof {
        lemma_key_index_bounds(d@, text::key_type());
    }
    match d.get(text::key_type_bytes().as_slice()) {
        Some(Object::Name(n)) => {
            bytes_eq(n.as_slice(), text::name_objstm_bytes().as_slice()) || bytes_eq(
                n.as_slice(),
                text::name_xref_bytes().as_slice(),
            ) || bytes_eq(n.as_slice(), linearized.as_slice())
        },
        _ => d.has(linearized.as_slice()),
    }
}

/// Whether the trailer's `Encrypt` entry refers to a dictionary among the objects.
pub open spec fn encrypted(trailer: DictView, objects: Seq<(ObjectId, Object)>) -> bool {
    match key_value(trailer, text::key_encrypt()) {
        Some(Object::Reference(id)) => objects_map(objects).contains_key(id) && objects_map(
            objects,
        )[id] is Dictionary,
        _ => false,
    }
}

/// Whether an object can be packed into an object stream: it is not a stream, its
/// generation is 0, it is not the encryption dictionary the trailer refers to, and it is
/// neither a cross-reference dictionary nor a linearization dictionary.
pub open spec fn compressible(id: ObjectId, o: Object, trailer: DictView) -> bool {
    &&& !(o is Stream)
    &&& id.1 == 0
    &&& key_value(trailer, text::key_encrypt()) != Some(Object::Reference(id))
    &&& (o matches Object::Dictionary(d) ==> {
        &&& !(key_value(d@, text::key_type()) matches Some(Object::Name(n)) && n@
            == text::name_xref())
        &&& key_index(d@, text::key_linearized()) is None
    })
}

/// Whether an object is a stream whose `Type` is `ObjStm`.
pub open spec fn is_object_stream(o: Object) -> bool {
    o matches Object::Stream(s) && (key_value(s.dict@, text::key_type()) matches Some(
        Object::Name(n),
    ) && n@ == text::name_objstm())
}

impl Document {
    /// Whether the document is encrypted: its trailer's `Encrypt` entry refers to a
    /// dictionary among its objects.
    pub fn is_encrypted(&self) -> (r: bool)
        ensures
            r == encrypted(self.trailer@, self.objects@),
    {
        match self.trailer.get(text::key_encrypt_bytes().as_slice()) {
            Some(Object::Reference(id)) => match self.objects.get(*id) {
                Some(Object::Dictionary(_)) => true,
                _ => false,
            },
            _ => false,
        }
    }
}

/// Whether an object can be packed into an object stream of `doc`.
pub fn can_be_compressed(id: ObjectId, object: &Object, doc: &Document) -> (r: bool)
    ensures
        r == compressible(id, *object, doc.trailer@),
{
    if matches!(object, Object::Stream(_)) {
        return false;
    }
    if id.1 != 0 {
        return false;
    }
    match doc.trailer.get(text::key_encrypt_bytes().as_slice()) {
        Some(Object::Reference(target)) => {
            if target.0 == id.0 && target.1 == id.1 {
                return false;
            }
        },
        _ => {},
    }
    match object {
        Object::Dictionary(d) => {
            match d.get(text::key_type_bytes().as_slice()) {
                Some(Object::Name(n)) => {
                    if bytes_eq(n.as_slice(), text::name_xref_bytes().as_slice()) {
                        return false;
                    }
                },
                _ => {},
            }
            if d.has(text::key_linearized_bytes().as_slice()) {
                return false;
            }
            true
        },
        _ => true,
    }
}

/// Whether an object is a stream whose `Type` is `ObjStm`.
pub fn is_existing_object_stream(o: &Object) -> (r: bool)
    ensures
        r == is_object_stream(*o),
{
    match o {
        Object::Stream(s) => match s.dict.get(text::key_type_bytes().as_slice()) {
            Some(Object::Name(n)) => bytes_eq(n.as_slice(), text::name_objstm_bytes().as_slice()),
            _ => false,
        },
        _ => false,
    }
}

} // verus!
