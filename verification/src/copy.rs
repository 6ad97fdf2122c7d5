use vstd::prelude::*;

use crate::object::{copy_bytes, DictView, Dictionary, Object, Stream};
use crate::syntax::{
    dict_piece, entries_piece, items_piece, need_end_separator, need_separator, object_piece,
};

verus! {

/// Two objects are written alike: the same bytes, and the same need of spaces around them.
pub open spec fn written_alike(a: Object, b: Object) -> bool {
    &&& object_piece(a) == object_piece(b)
    &&& need_separator(a) == need_separator(b)
    &&& need_end_separator(a) == need_end_separator(b)
}

/// Two sequences of objects are written alike, element by element.
pub open spec fn items_alike(a: Seq<Object>, b: Seq<Object>) -> bool {
    &&& a.len() == b.len()
    &&& forall|i: int| 0 <= i < a.len() ==> written_alike(#[trigger] a[i], b[i])
}

/// Two dictionaries have the same keys in the same order, with values written alike.
pub open spec fn pairs_alike(a: DictView, b: DictView) -> bool {
    &&& a.len() == b.len()
    &&& forall|i: int|
        0 <= i < a.len() ==> (#[trigger] a[i]).0 == b[i].0 && written_alike(a[i].1, b[i].1)
}

/// Elements written alike are written alike together.
pub proof fn lemma_items_alike(a: Seq<Object>, b: Seq<Object>)
    requires
        items_alike(a, b),
    ensures
        items_piece(a) == items_piece(b),
    decreases a.len(),
{
    if a.len() > 0 {
        assert(items_alike(a.drop_last(), b.drop_last())) by {
            assert forall|i: int| 0 <= i < a.len() - 1 implies written_alike(
                #[trigger] a.drop_last()[i],
                b.drop_last()[i],
            ) by {
                assert(written_alike(a[i], b[i]));
            }
        }
        lemma_items_alike(a.drop_last(), b.drop_last());
        assert(written_alike(a[a.len() - 1], b[b.len() - 1]));
    }
}

/// Entries with the same keys and values written alike are written alike.
pub proof fn lemma_entries_alike(a: Seq<(Vec<u8>, Object)>, b: Seq<(Vec<u8>, Object)>)
    requires
        pairs_alike(crate::object::pairs_view(a), crate::object::pairs_view(b)),
    ensures
        entries_piece(a) == entries_piece(b),
        dict_piece(a) == dict_piece(b),
    decreases a.len(),
{
    let va = crate::object::pairs_view(a);
    let vb = crate::object::pairs_view(b);
    if a.len() > 0 {
        let pa = a.drop_last();
        let pb = b.drop_last();
        assert(pairs_alike(crate::object::pairs_view(pa), crate::object::pairs_view(pb))) by {
            assert forall|i: int| 0 <= i < pa.len() implies (#[trigger] crate::object::pairs_view(
                pa,
            )[i]).0 == crate::object::pairs_view(pb)[i].0 && written_alike(
                crate::object::pairs_view(pa)[i].1,
                crate::object::pairs_view(pb)[i].1,
            ) by {
                assert(va[i].0 == vb[i].0 && written_alike(va[i].1, vb[i].1));
            }
        }
        lemma_entries_alike(pa, pb);
        assert(va[a.len() - 1].0 == vb[a.len() - 1].0 && written_alike(
            va[a.len() - 1].1,
            vb[a.len() - 1].1,
        ));
    }
}

/// Setting the same key to the same value in dictionaries alike keeps them alike.
pub proof fn lemma_set_alike(a: DictView, b: DictView, key: Seq<u8>, value: Object)
    requires
        pairs_alike(a, b),
    ensures
        pairs_alike(crate::object::set_pairs(a, key, value), crate::object::set_pairs(b, key, value)),
{
    lemma_same_keys_index(a, b, key);
    crate::object::lemma_key_index_bounds(a, key);
    let sa = crate::object::set_pairs(a, key, value);
    let sb = crate::object::set_pairs(b, key, value);
    assert forall|i: int| 0 <= i < sa.len() implies (#[trigger] sa[i]).0 == sb[i].0 && written_alike(
        sa[i].1,
        sb[i].1,
    ) by {
        if i < a.len() {
            assert(a[i].0 == b[i].0 && written_alike(a[i].1, b[i].1));
        }
    }
}

/// Dictionaries with the same keys find a key at the same position.
pub proof fn lemma_same_keys_index(a: DictView, b: DictView, key: Seq<u8>)
    requires
        a.len() == b.len(),
        forall|i: int| 0 <= i < a.len() ==> (#[trigger] a[i]).0 == b[i].0,
    ensures
        crate::object::key_index(a, key) == crate::object::key_index(b, key),
    decreases a.len(),
{
    if a.len() > 0 {
        assert forall|i: int| 0 <= i < a.len() - 1 implies (#[trigger] a.drop_last()[i]).0
            == b.drop_last()[i].0 by {
            assert(a[i].0 == b[i].0);
        }
        lemma_same_keys_index(a.drop_last(), b.drop_last(), key);
        assert(a[a.len() - 1].0 == b[b.len() - 1].0);
    }
}

/// A copy of an object, written exactly as the object is.
pub fn copy_object(o: &Object) -> (c: Object)
    ensures
        written_alike(c, *o),
    decreases o, 0int,
{
    match o {
        Object::Null => Object::Null,
        Object::Boolean(v) => Object::Boolean(*v),
        Object::Integer(v) => Object::Integer(*v),
        Object::Real(v) => Object::Real(v.copy()),
        Object::Name(n) => Object::Name(copy_bytes(n.as_slice())),
        Object::String(t, f) => Object::String(copy_bytes(t.as_slice()), *f),
        Object::Array(items) => {
            let c = copy_items(items);
            proof {
                lemma_items_alike(c@, items@);
            }
            Object::Array(c)
        },
        Object::Dictionary(d) => Object::Dictionary(copy_dictionary(d)),
        Object::Stream(s) => {
            let dict = copy_dictionary(&s.dict);
            Object::Stream(
                Stream {
                    dict,
                    content: copy_bytes(s.content.as_slice()),
                    allows_compression: s.allows_compression,
                    start_position: s.start_position,
                },
            )
        },
        Object::Reference(id) => Object::Reference(*id),
    }
}

/// Copies of the elements of an array.
pub fn copy_items(items: &Vec<Object>) -> (c: Vec<Object>)
    ensures
        items_alike(c@, items@),
    decreases items, 1int,
{
    let mut c: Vec<Object> = Vec::new();
    let mut i: usize = 0;
    while i < items.len()
        invariant
            i <= items@.len(),
            items_alike(c@, items@.take(i as int)),
        decreases items@.len() - i,
    {
        let x = copy_object(&items[i]);
        c.push(x);
        i = i + 1;
        assert forall|j: int| 0 <= j < c@.len() implies written_alike(
            #[trigger] c@[j],
            items@.take(i as int)[j],
        ) by {
            if j < i - 1 {
                assert(written_alike(c@[j], items@.take(i - 1)[j]));
            }
        }
    }
    assert(items@.take(i as int) =~= items@);
    c
}

/// A copy of a dictionary: the same keys in the same order, each value copied.
pub fn copy_dictionary(d: &Dictionary) -> (c: Dictionary)
    ensures
        pairs_alike(c@, d@),
        dict_piece(c.entries@) == dict_piece(d.entries@),
    decreases d, 1int,
{
    let mut entries: Vec<(Vec<u8>, Object)> = Vec::new();
    let mut i: usize = 0;
    while i < d.entries.len()
        invariant
            i <= d.entries@.len(),
            pairs_alike(
                crate::object::pairs_view(entries@),
                crate::object::pairs_view(d.entries@.take(i as int)),
            ),
        decreases d.entries@.len() - i,
    {
        let key = copy_bytes(d.entries[i].0.as_slice());
        let value = copy_object(&d.entries[i].1);
        let ghost before = entries@;
        entries.push((key, value));
        i = i + 1;
        proof {
            let a = crate::object::pairs_view(entries@);
            let b = crate::object::pairs_view(d.entries@.take(i as int));
            let a0 = crate::object::pairs_view(before);
            let b0 = crate::object::pairs_view(d.entries@.take(i - 1));
            assert forall|j: int| 0 <= j < a.len() implies (#[trigger] a[j]).0 == b[j].0
                && written_alike(a[j].1, b[j].1) by {
                if j < i - 1 {
                    assert(a0[j] == a[j]);
                    assert(b0[j] == b[j]);
                    assert(a0[j].0 == b0[j].0 && written_alike(a0[j].1, b0[j].1));
                } else {
                    assert(entries@[j] == (key, value));
                    assert(d.entries@.take(i as int)[j] == d.entries@[i - 1]);
                }
            }
        }
    }
    assert(d.entries@.take(i as int) =~= d.entries@);
    let c = Dictionary { entries };
    proof {
        lemma_entries_alike(c.entries@, d.entries@);
    }
    c
}

} // verus!
