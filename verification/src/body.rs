use vstd::prelude::*;

use crate::document::{
    can_be_compressed, compressible, is_existing_object_stream, is_generated, is_generated_kind,
    is_object_stream, object_type, Document,
};
use crate::error::{kind_of, ErrorKind, SaveError};
use crate::object::{DictView, Object, ObjectId};
use crate::sink::{
    begins_at, done, extends, lemma_begins_at_moves, lemma_begins_with, lemma_extends_len,
    lemma_extends_refl, lemma_extends_then, lemma_extends_trans, lemma_wrote_extend,
    lemma_wrote_then, then, wrote, Output, Piece,
};
use crate::writer::{indirect_header, indirect_piece, object_header, Writer};
use crate::xref::{Xref, XrefEntry};

verus! {

/// Whether a save writes an object directly, as an indirect object of its own. A plain
/// save writes every object but the cross-reference machinery it generates anew; a save
/// that packs objects into object streams writes every object it does not pack, and
/// drops the object streams the document had.
pub open spec fn written_directly(trailer: DictView, packing: bool, id: ObjectId, o: Object) -> bool {
    if packing {
        !is_object_stream(o) && !compressible(id, o, trailer)
    } else {
        !is_generated_kind(o)
    }
}

/// Writing the objects of `objs` that a save writes directly, one after the other, from
/// position `start`: the bytes, the entries recorded, and the kind of error that stopped
/// the output when it stopped. Each object is recorded at its position, which must fit in
/// 32 bits, or the output stops there with `InvalidInput`; an object with no PDF form
/// stops it with `InvalidData`.
pub open spec fn run(
    objs: Seq<(ObjectId, Object)>,
    trailer: DictView,
    packing: bool,
    start: int,
    entries: Map<u32, XrefEntry>,
) -> (Piece, Map<u32, XrefEntry>, ErrorKind)
    decreases objs.len(),
{
    if objs.len() == 0 {
        (done(Seq::empty()), entries, ErrorKind::Other)
    } else {
        let (p, m, k) = run(objs.drop_last(), trailer, packing, start, entries);
        let (id, o) = objs.last();
        if !p.1 || !written_directly(trailer, packing, id, o) {
            (p, m, k)
        } else if start + p.0.len() > u32::MAX {
            ((p.0, false), m, ErrorKind::InvalidInput)
        } else {
            (
                then(p, indirect_piece(id.0, id.1, o)),
                m.insert(
                    id.0,
                    XrefEntry::Normal { offset: (start + p.0.len()) as u32, generation: id.1 },
                ),
                ErrorKind::InvalidData,
            )
        }
    }
}

/// How a write that stopped failed: with `kind` when the whole output fits the counter,
/// and otherwise with a value error or an exhausted counter.
pub open spec fn failed_as(r: Result<(), SaveError>, before: Output, piece: Piece, kind: ErrorKind) -> bool {
    r matches Err(e) ==> ((e is InvalidData || e is InvalidInput) && (before.count()
        + piece.0.len() <= usize::MAX ==> kind_of(e) == kind))
}

/// Once the output stopped, further objects change nothing.
pub proof fn lemma_run_stops(
    objs: Seq<(ObjectId, Object)>,
    trailer: DictView,
    packing: bool,
    start: int,
    entries: Map<u32, XrefEntry>,
    i: int,
)
    requires
        0 <= i <= objs.len(),
        !run(objs.take(i), trailer, packing, start, entries).0.1,
    ensures
        run(objs, trailer, packing, start, entries) == run(objs.take(i), trailer, packing, start, entries),
    decreases objs.len() - i,
{
    if i < objs.len() {
        let shorter = objs.drop_last();
        assert(shorter.take(i) =~= objs.take(i));
        lemma_run_stops(shorter, trailer, packing, start, entries, i);
    } else {
        assert(objs.take(i) =~= objs);
    }
}

/// The output of more objects continues that of fewer.
pub proof fn lemma_run_extends(
    objs: Seq<(ObjectId, Object)>,
    trailer: DictView,
    packing: bool,
    start: int,
    entries: Map<u32, XrefEntry>,
    i: int,
)
    requires
        0 <= i <= objs.len(),
    ensures
        extends(
            run(objs, trailer, packing, start, entries).0,
            run(objs.take(i), trailer, packing, start, entries).0,
        ),
    decreases objs.len() - i,
{
    if i < objs.len() {
        let shorter = objs.drop_last();
        assert(shorter.take(i) =~= objs.take(i));
        lemma_run_extends(shorter, trailer, packing, start, entries, i);
        let p = run(shorter, trailer, packing, start, entries).0;
        let w = run(objs, trailer, packing, start, entries).0;
        let (id, o) = objs.last();
        if p.1 && written_directly(trailer, packing, id, o) {
            if start + p.0.len() > u32::MAX {
                assert(p.0.take(p.0.len() as int) =~= p.0);
            } else {
                lemma_extends_then(p, indirect_piece(id.0, id.1, o));
            }
        } else {
            lemma_extends_refl(p);
        }
        lemma_extends_trans(w, p, run(objs.take(i), trailer, packing, start, entries).0);
    } else {
        assert(objs.take(i) =~= objs);
        lemma_extends_refl(run(objs, trailer, packing, start, entries).0);
    }
}

/// The entries recorded for the objects are in-use entries.
pub proof fn lemma_run_entries(
    objs: Seq<(ObjectId, Object)>,
    trailer: DictView,
    packing: bool,
    start: int,
    entries: Map<u32, XrefEntry>,
)
    ensures
        forall|k: u32| #[trigger]
            run(objs, trailer, packing, start, entries).1.contains_key(k) ==> entries.contains_key(k)
                || run(objs, trailer, packing, start, entries).1[k] is Normal,
        forall|k: u32|
            entries.contains_key(k) && !(entries[k] is Normal) ==> #[trigger] run(
                objs,
                trailer,
                packing,
                start,
                entries,
            ).1.contains_key(k),
    decreases objs.len(),
{
    if objs.len() > 0 {
        lemma_run_entries(objs.drop_last(), trailer, packing, start, entries);
    }
}

/// An in-use entry for object number `k` points, in `bytes` written from position
/// `start`, at the line that opens that object.
pub open spec fn locates(bytes: Seq<u8>, start: int, k: u32, e: XrefEntry) -> bool {
    e matches XrefEntry::Normal { offset, generation } ==> begins_at(
        bytes,
        offset - start,
        object_header(k, generation),
    )
}

/// An indirect object begins with the line that opens it.
pub proof fn lemma_indirect_begins(id: u32, generation: u16, o: Object)
    ensures
        begins_at(indirect_piece(id, generation, o).0, 0, object_header(id, generation)),
{
    let h = indirect_header(id, generation, o);
    let rest = indirect_piece(id, generation, o).0.skip(h.len() as int);
    assert(indirect_piece(id, generation, o).0 =~= h + rest);
    lemma_begins_with(h, rest);
    let oh = object_header(id, generation);
    assert(h =~= oh + h.skip(oh.len() as int));
    lemma_begins_with(oh, h.skip(oh.len() as int));
    lemma_begins_at_moves(Seq::empty(), h, rest, 0, oh);
    assert(Seq::<u8>::empty() + h + rest =~= h + rest);
}

/// Every entry a run records for a number that had none points, in the bytes of the run,
/// at the line that opens its object.
pub proof fn lemma_run_locates(
    objs: Seq<(ObjectId, Object)>,
    trailer: DictView,
    packing: bool,
    start: int,
    entries: Map<u32, XrefEntry>,
)
    requires
        start >= 0,
    ensures
        forall|k: u32| #[trigger]
            run(objs, trailer, packing, start, entries).1.contains_key(k) && !entries.contains_key(k)
                ==> locates(
                run(objs, trailer, packing, start, entries).0.0,
                start,
                k,
                run(objs, trailer, packing, start, entries).1[k],
            ),
    decreases objs.len(),
{
    if objs.len() > 0 {
        let shorter = objs.drop_last();
        lemma_run_locates(shorter, trailer, packing, start, entries);
        let (p, m, kd) = run(shorter, trailer, packing, start, entries);
        let (id, o) = objs.last();
        if p.1 && written_directly(trailer, packing, id, o) && start + p.0.len() <= u32::MAX {
            let q = indirect_piece(id.0, id.1, o);
            let w = run(objs, trailer, packing, start, entries);
            assert(w.0.0 == p.0 + q.0);
            assert forall|k: u32| #[trigger] w.1.contains_key(k) && !entries.contains_key(k) implies locates(
                w.0.0,
                start,
                k,
                w.1[k],
            ) by {
                if k == id.0 {
                    lemma_indirect_begins(id.0, id.1, o);
                    lemma_begins_at_moves(p.0, q.0, Seq::empty(), 0, object_header(id.0, id.1));
                    assert(p.0 + q.0 + Seq::<u8>::empty() =~= p.0 + q.0);
                } else {
                    assert(m.contains_key(k) && w.1[k] == m[k]);
                    if let XrefEntry::Normal { offset, generation } = m[k] {
                        lemma_begins_at_moves(Seq::empty(), p.0, q.0, offset - start, object_header(k, generation));
                        assert(Seq::<u8>::empty() + p.0 + q.0 =~= p.0 + q.0);
                    }
                }
            }
        }
    }
}

/// Whether an object is cross-reference machinery by its type: its dictionary's `Type` is
/// `XRef` or `ObjStm`, or it is a linearization dictionary.
pub open spec fn machinery_type(o: Object) -> bool {
    object_type(o) == Some(crate::text::name_xref()) || object_type(o) == Some(
        crate::text::name_objstm(),
    ) || object_type(o) == Some(crate::text::key_linearized())
}

/// A plain save writes no cross-reference machinery: every number it records belongs to
/// an object of `objs` that is not a cross-reference stream, an object stream or a
/// linearization dictionary, and, when the output completes, every other object is
/// recorded.
pub proof fn lemma_plain_run_skips_machinery(
    objs: Seq<(ObjectId, Object)>,
    trailer: DictView,
    start: int,
    entries: Map<u32, XrefEntry>,
)
    ensures
        forall|k: u32| #[trigger]
            run(objs, trailer, false, start, entries).1.contains_key(k) && !entries.contains_key(k)
                ==> exists|i: int|
                0 <= i < objs.len() && objs[i].0.0 == k && !machinery_type(#[trigger] objs[i].1),
        run(objs, trailer, false, start, entries).0.1 ==> forall|i: int|
            0 <= i < objs.len() && !machinery_type(#[trigger] objs[i].1) ==> run(
                objs,
                trailer,
                false,
                start,
                entries,
            ).1.contains_key(objs[i].0.0),
    decreases objs.len(),
{
    if objs.len() > 0 {
        let shorter = objs.drop_last();
        lemma_plain_run_skips_machinery(shorter, trailer, start, entries);
        let (p, m, kd) = run(shorter, trailer, false, start, entries);
        let w = run(objs, trailer, false, start, entries);
        let last = objs.len() - 1;
        let (id, o) = objs.last();
        assert forall|k: u32| #[trigger] w.1.contains_key(k) && !entries.contains_key(k) implies exists|i: int|
            0 <= i < objs.len() && objs[i].0.0 == k && !machinery_type(#[trigger] objs[i].1) by {
            if m.contains_key(k) {
                let i = choose|i: int|
                    0 <= i < shorter.len() && shorter[i].0.0 == k && !machinery_type(#[trigger] shorter[i].1);
                assert(objs[i] == shorter[i]);
            } else {
                assert(k == id.0);
                assert(objs[last] == (id, o));
            }
        }
        if w.0.1 {
            assert(p.1);
            assert forall|i: int| 0 <= i < objs.len() && !machinery_type(#[trigger] objs[i].1) implies w.1.contains_key(
                objs[i].0.0,
            ) by {
                if i < last {
                    assert(objs[i] == shorter[i]);
                    assert(m.contains_key(shorter[i].0.0));
                } else {
                    assert(objs[i] == (id, o));
                }
            }
        }
    }
}

impl Document {
    /// Writes, in identifier order, the objects that the save writes directly, each at the
    /// current position, recording the positions in `xref`.
    pub fn write_objects(&self, file: &mut Output, xref: &mut Xref, packing: bool) -> (r: Result<
        (),
        SaveError,
    >)
        ensures
            ({
                let (p, m, k) = run(
                    self.objects@,
                    self.trailer@,
                    packing,
                    old(file).count() as int,
                    old(xref).entries@,
                );
                &&& old(file).count() + p.0.len() <= usize::MAX ==> final(xref).entries@ == m
                &&& final(xref).size == old(xref).size
                &&& final(xref).cross_reference_type == old(xref).cross_reference_type
                &&& wrote(*old(file), *final(file), p, r is Ok)
                &&& failed_as(r, *old(file), p, k)
            }),
    {
        let ghost objs = self.objects@;
        let ghost trailer = self.trailer@;
        let ghost f0 = *file;
        let ghost m0 = xref.entries@;
        let n = self.objects.len();
        let mut i: usize = 0;
        proof {
            assert(objs.take(0) =~= Seq::<(ObjectId, Object)>::empty());
            crate::sink::lemma_wrote_nothing(f0);
        }
        while i < n
            invariant
                i <= n == objs.len(),
                objs == self.objects@,
                trailer == self.trailer@,
                f0 == *old(file),
                m0 == old(xref).entries@,
                run(objs.take(i as int), trailer, packing, f0.count() as int, m0).0.1,
                wrote(f0, *file, run(objs.take(i as int), trailer, packing, f0.count() as int, m0).0, true),
                xref.entries@ == run(objs.take(i as int), trailer, packing, f0.count() as int, m0).1,
                xref.size == old(xref).size,
                xref.cross_reference_type == old(xref).cross_reference_type,
            decreases n - i,
        {
            let ghost before = run(objs.take(i as int), trailer, packing, f0.count() as int, m0);
            let ghost fi = *file;
            assert(objs.take(i + 1).drop_last() =~= objs.take(i as int));
            let (id, object) = self.objects.at(i);
            let keep = if packing {
                !is_existing_object_stream(object) && !can_be_compressed(id, object, self)
            } else {
                !is_generated(object)
            };
            if keep {
                let r = Writer::write_indirect_object(file, id.0, id.1, object, xref);
                if r.is_err() {
                    proof {
                        let q = indirect_piece(id.0, id.1, *object);
                        let whole = run(objs, trailer, packing, f0.count() as int, m0);
                        lemma_run_extends(objs, trailer, packing, f0.count() as int, m0, i + 1);
                        if fi.count() <= u32::MAX {
                            lemma_wrote_then(f0, fi, *file, before.0, q, true, false);
                            lemma_wrote_extend(f0, *file, then(before.0, q), whole.0);
                            lemma_extends_len(whole.0, then(before.0, q));
                            if !q.1 {
                                lemma_run_stops(objs, trailer, packing, f0.count() as int, m0, i + 1);
                            }
                        } else {
                            lemma_run_stops(objs, trailer, packing, f0.count() as int, m0, i + 1);
                            assert(wrote(f0, *file, (before.0.0, false), false));
                        }
                    }
                    return r;
                }
                proof {
                    lemma_wrote_then(f0, fi, *file, before.0, indirect_piece(id.0, id.1, *object), true, true);
                }
            }
            i = i + 1;
        }
        assert(objs.take(i as int) =~= objs);
        Ok(())
    }
}

} // verus!
