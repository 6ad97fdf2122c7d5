use vstd::prelude::*;

use crate::body::{failed_as, lemma_indirect_begins, locates};
use crate::copy::{copy_dictionary, lemma_entries_alike, lemma_set_alike, pairs_alike};
use crate::document::{encrypted, is_generated, is_generated_kind, Document, EncryptionState};
use crate::error::{kind_of, ErrorKind, SaveError};
use crate::full_save::{appended, footer, lemma_appended};
use crate::number::push_all;
use crate::object::{set_pairs, Dictionary, Object, ObjectId};
use crate::save::{
    same_but_trailer, stream_entries, stream_object_piece, stream_size, trailer_piece,
    xref_trailer,
};
use crate::sink::{
    begins_at, done, extends, lemma_begins_at_moves, lemma_begins_with, lemma_extends_len, lemma_extends_refl, lemma_extends_then,
    lemma_extends_trans, lemma_step_fail, lemma_wrote_extend, lemma_wrote_nothing,
    lemma_wrote_then, then, wrote, CountingWrite, Output, Piece,
};
use crate::table::{index_items, stream_records, stream_sections, table_bytes};
use crate::text;
use crate::writer::{indirect_piece, object_header, Writer};
use crate::xref::{has_compressed, has_null, Xref, XrefEntry, XrefType};

verus! {

/// A new revision to append to an existing file: the bytes of the file, the document they
/// hold, and the document of the new revision, whose objects are added or replaced.
pub struct IncrementalDocument {
    bytes_documents: Vec<u8>,
    prev_documents: Document,
    /// The new revision.
    pub new_document: Document,
}

/// The objects of a revision that a save copies to the output, in identifier order.
pub open spec fn copied_objects(objs: Seq<(ObjectId, Object)>) -> Seq<(ObjectId, Object)>
    decreases objs.len(),
{
    if objs.len() == 0 {
        Seq::empty()
    } else {
        copied_objects(objs.drop_last()) + if !is_generated_kind(objs.last().1) {
            seq![objs.last()]
        } else {
            Seq::empty()
        }
    }
}

/// Appending the objects of a new revision from position `start`: each object a save
/// copies, written as it is, or, for an encrypted revision, as `shown` gives it (the
/// `j`-th copied object as `shown[j]`); when `shown` runs out, the encryption failed and
/// the output stops with `Other`. Each object is recorded at its position, which must fit
/// in 32 bits.
pub open spec fn appended_run(
    objs: Seq<(ObjectId, Object)>,
    shown: Option<Seq<Object>>,
    start: int,
) -> (Piece, Map<u32, XrefEntry>, ErrorKind)
    decreases objs.len(),
{
    if objs.len() == 0 {
        (done(Seq::empty()), Map::empty(), ErrorKind::Other)
    } else {
        let (p, m, k) = appended_run(objs.drop_last(), shown, start);
        let (id, o) = objs.last();
        let j = copied_objects(objs.drop_last()).len();
        if !p.1 || is_generated_kind(o) {
            (p, m, k)
        } else if shown is Some && j >= shown->0.len() {
            ((p.0, false), m, ErrorKind::Other)
        } else if start + p.0.len() > u32::MAX {
            ((p.0, false), m, ErrorKind::InvalidInput)
        } else {
            let w = match shown {
                Some(list) => list[j as int],
                None => o,
            };
            (
                then(p, indirect_piece(id.0, id.1, w)),
                m.insert(
                    id.0,
                    XrefEntry::Normal { offset: (start + p.0.len()) as u32, generation: id.1 },
                ),
                ErrorKind::InvalidData,
            )
        }
    }
}

/// A revision copies at most all its objects.
pub proof fn lemma_copied_len(objs: Seq<(ObjectId, Object)>)
    ensures
        copied_objects(objs).len() <= objs.len(),
    decreases objs.len(),
{
    if objs.len() > 0 {
        lemma_copied_len(objs.drop_last());
    }
}

/// Why an incremental save is refused: the previous revision is still encrypted, or it
/// was decrypted without recording where its `/Encrypt` dictionary is.
pub open spec fn refused(prev: Document) -> bool {
    ||| encrypted(prev.trailer@, prev.objects@)
    ||| (prev.encryption_state matches Some(s) && s.encrypt_id() is None)
}

impl IncrementalDocument {
    /// A new revision of the document `prev_documents`, held in `prev_bytes`.
    pub fn create_from(prev_bytes: Vec<u8>, prev_documents: Document, new_document: Document) -> (d:
        IncrementalDocument)
        ensures
            d.prev_bytes() == prev_bytes@,
            d.prev() == prev_documents,
            d.newer() == new_document,
    {
        IncrementalDocument { bytes_documents: prev_bytes, prev_documents, new_document }
    }

    /// The bytes of the existing file.
    pub closed spec fn prev_bytes(&self) -> Seq<u8> {
        self.bytes_documents@
    }

    /// The document the existing file holds.
    pub closed spec fn prev(&self) -> Document {
        self.prev_documents
    }

    /// The document of the new revision.
    pub closed spec fn newer(&self) -> Document {
        self.new_document
    }

    /// The document the existing file holds.
    pub fn get_prev_documents(&self) -> (r: &Document)
        ensures
            *r == self.prev(),
    {
        &self.prev_documents
    }

    /// The bytes of the existing file.
    pub fn get_prev_documents_bytes(&self) -> (r: &[u8])
        ensures
            r@ == self.prev_bytes(),
    {
        self.bytes_documents.as_slice()
    }

    /// Refuses a previous revision that is still encrypted, or that was decrypted without
    /// recording where its `/Encrypt` dictionary is: both are `Unsupported`.
    pub fn check_incremental_save_supported(&self) -> (r: Result<(), SaveError>)
        ensures
            r is Err <==> refused(self.prev()),
            r matches Err(e) ==> e is Unsupported,
    {
        let prev = &self.prev_documents;
        if prev.is_encrypted() {
            return Err(
                SaveError::Unsupported(
                    "incremental update of a still-encrypted PDF is not supported: decrypt the previous revision first",
                ),
            );
        }
        match &prev.encryption_state {
            Some(state) => {
                if state.encrypt_object_id().is_none() {
                    return Err(
                        SaveError::Unsupported(
                            "cannot incrementally save this decrypted document: the /Encrypt object id was not recorded during decryption",
                        ),
                    );
                }
            },
            None => {},
        }
        Ok(())
    }
}

/// The output of fewer objects continues into that of more.
pub proof fn lemma_appended_extends(
    objs: Seq<(ObjectId, Object)>,
    shown: Option<Seq<Object>>,
    start: int,
    i: int,
)
    requires
        0 <= i <= objs.len(),
    ensures
        extends(appended_run(objs, shown, start).0, appended_run(objs.take(i), shown, start).0),
    decreases objs.len() - i,
{
    if i < objs.len() {
        let shorter = objs.drop_last();
        assert(shorter.take(i) =~= objs.take(i));
        lemma_appended_extends(shorter, shown, start, i);
        let p = appended_run(shorter, shown, start).0;
        let w = appended_run(objs, shown, start).0;
        let (id, o) = objs.last();
        let j = copied_objects(shorter).len();
        if p.1 && !is_generated_kind(o) {
            if (shown is Some && j >= shown->0.len()) || start + p.0.len() > u32::MAX {
                assert(p.0.take(p.0.len() as int) =~= p.0);
            } else {
                let wo = match shown {
                    Some(list) => list[j as int],
                    None => o,
                };
                lemma_extends_then(p, indirect_piece(id.0, id.1, wo));
            }
        } else {
            lemma_extends_refl(p);
        }
        lemma_extends_trans(w, p, appended_run(objs.take(i), shown, start).0);
    } else {
        assert(objs.take(i) =~= objs);
        lemma_extends_refl(appended_run(objs, shown, start).0);
    }
}

/// Once the output stopped, further objects change nothing.
pub proof fn lemma_appended_stops(
    objs: Seq<(ObjectId, Object)>,
    shown: Option<Seq<Object>>,
    start: int,
    i: int,
)
    requires
        0 <= i <= objs.len(),
        !appended_run(objs.take(i), shown, start).0.1,
    ensures
        appended_run(objs, shown, start) == appended_run(objs.take(i), shown, start),
    decreases objs.len() - i,
{
    if i < objs.len() {
        let shorter = objs.drop_last();
        assert(shorter.take(i) =~= objs.take(i));
        lemma_appended_stops(shorter, shown, start, i);
    } else {
        assert(objs.take(i) =~= objs);
    }
}

/// The entries recorded for appended objects are in-use entries.
pub proof fn lemma_appended_entries(objs: Seq<(ObjectId, Object)>, shown: Option<Seq<Object>>, start: int)
    ensures
        forall|k: u32| #[trigger]
            appended_run(objs, shown, start).1.contains_key(k) ==> appended_run(objs, shown, start).1[k] is Normal,
    decreases objs.len(),
{
    if objs.len() > 0 {
        lemma_appended_entries(objs.drop_last(), shown, start);
    }
}

/// Every entry recorded for an appended object points, in the bytes of the run, at the
/// line that opens that object.
pub proof fn lemma_appended_locates(objs: Seq<(ObjectId, Object)>, shown: Option<Seq<Object>>, start: int)
    requires
        start >= 0,
    ensures
        forall|k: u32| #[trigger]
            appended_run(objs, shown, start).1.contains_key(k) ==> locates(
                appended_run(objs, shown, start).0.0,
                start,
                k,
                appended_run(objs, shown, start).1[k],
            ),
    decreases objs.len(),
{
    if objs.len() > 0 {
        let shorter = objs.drop_last();
        lemma_appended_locates(shorter, shown, start);
        let (p, m, kd) = appended_run(shorter, shown, start);
        let (id, o) = objs.last();
        let j = copied_objects(shorter).len();
        if p.1 && !is_generated_kind(o) && !(shown is Some && j >= shown->0.len()) && start
            + p.0.len() <= u32::MAX {
            let wo = match shown {
                Some(list) => list[j as int],
                None => o,
            };
            let q = indirect_piece(id.0, id.1, wo);
            let w = appended_run(objs, shown, start);
            assert(w.0.0 == p.0 + q.0);
            assert forall|k: u32| #[trigger] w.1.contains_key(k) implies locates(w.0.0, start, k, w.1[k]) by {
                if k == id.0 {
                    lemma_indirect_begins(id.0, id.1, wo);
                    lemma_begins_at_moves(p.0, q.0, Seq::empty(), 0, object_header(id.0, id.1));
                    assert(p.0 + q.0 + Seq::<u8>::empty() =~= p.0 + q.0);
                } else {
                    assert(m.contains_key(k) && w.1[k] == m[k]);
                    if let XrefEntry::Normal { offset, generation } = m[k] {
                        lemma_begins_at_moves(Seq::empty(), p.0, q.0, offset - start, object_header(k, generation));
                        assert(Seq::<u8>::empty() + p.0 + q.0 =~= p.0 + q.0);
                    }
                }
            }
        }
    }
}

impl IncrementalDocument {
    /// Writes the objects of the new revision that a save copies, in identifier order, each
    /// at the current position, recording the positions in `xref`; for an encrypted
    /// revision each is written as `shown` gives it.
    fn write_appended_objects(
        &self,
        file: &mut Output,
        xref: &mut Xref,
        shown: Option<&Vec<Object>>,
    ) -> (r: Result<(), SaveError>)
        requires
            old(xref).entries@ == Map::<u32, XrefEntry>::empty(),
        ensures
            ({
                let shown_v = match shown {
                    Some(l) => Some(l@),
                    None => None,
                };
                let (p, m, k) = appended_run(
                    self.new_document.objects@,
                    shown_v,
                    old(file).count() as int,
                );
                &&& old(file).count() + p.0.len() <= usize::MAX ==> final(xref).entries@ == m
                &&& final(xref).size == old(xref).size
                &&& final(xref).cross_reference_type == old(xref).cross_reference_type
                &&& wrote(*old(file), *final(file), p, r is Ok)
                &&& r matches Err(e) ==> ((e is InvalidData || e is InvalidInput || e is Other) && (
                old(file).count() + p.0.len() <= usize::MAX ==> kind_of(e) == k))
            }),
    {
        let ghost objs = self.new_document.objects@;
        let ghost shown_v = match shown {
            Some(l) => Some(l@),
            None => None,
        };
        let ghost f0 = *file;
        let n = self.new_document.objects.len();
        let mut i: usize = 0;
        let mut j: usize = 0;
        proof {
            assert(objs.take(0) =~= Seq::<(ObjectId, Object)>::empty());
            lemma_wrote_nothing(f0);
        }
        while i < n
            invariant
                i <= n == objs.len(),
                objs == self.new_document.objects@,
                shown_v == match shown {
                    Some(l) => Some(l@),
                    None => None::<Seq<Object>>,
                },
                f0 == *old(file),
                j == copied_objects(objs.take(i as int)).len(),
                appended_run(objs.take(i as int), shown_v, f0.count() as int).0.1,
                wrote(f0, *file, appended_run(objs.take(i as int), shown_v, f0.count() as int).0, true),
                xref.entries@ == appended_run(objs.take(i as int), shown_v, f0.count() as int).1,
                xref.size == old(xref).size,
                xref.cross_reference_type == old(xref).cross_reference_type,
            decreases n - i,
        {
            let ghost before = appended_run(objs.take(i as int), shown_v, f0.count() as int);
            let ghost fi = *file;
            assert(objs.take(i + 1).drop_last() =~= objs.take(i as int));
            let (id, object) = self.new_document.objects.at(i);
            proof {
                lemma_copied_len(objs.take(i as int));
            }
            if !is_generated(object) {
                let w: &Object = match shown {
                    Some(list) => {
                        if j >= list.len() {
                            proof {
                                lemma_appended_stops(objs, shown_v, f0.count() as int, i + 1);
                                assert(before.0.0 + Seq::<u8>::empty() =~= before.0.0);
                                assert(wrote(f0, *file, (before.0.0, false), false));
                            }
                            return Err(SaveError::Other("an object of the new revision could not be encrypted"));
                        }
                        &list[j]
                    },
                    None => object,
                };
                let r = Writer::write_indirect_object(file, id.0, id.1, w, xref);
                if r.is_err() {
                    proof {
                        let q = indirect_piece(id.0, id.1, *w);
                        let whole = appended_run(objs, shown_v, f0.count() as int);
                        lemma_appended_extends(objs, shown_v, f0.count() as int, i + 1);
                        if fi.count() <= u32::MAX {
                            lemma_wrote_then(f0, fi, *file, before.0, q, true, false);
                            lemma_wrote_extend(f0, *file, then(before.0, q), whole.0);
                            lemma_extends_len(whole.0, then(before.0, q));
                            if !q.1 {
                                lemma_appended_stops(objs, shown_v, f0.count() as int, i + 1);
                            }
                        } else {
                            lemma_appended_stops(objs, shown_v, f0.count() as int, i + 1);
                            assert(wrote(f0, *file, (before.0.0, false), false));
                        }
                    }
                    return r;
                }
                proof {
                    lemma_wrote_then(f0, fi, *file, before.0, indirect_piece(id.0, id.1, *w), true, true);
                }
                j = j + 1;
            }
            i = i + 1;
        }
        assert(objs.take(i as int) =~= objs);
        Ok(())
    }
}

/// The line feed an incremental save puts after a previous file that does not end with one.
pub open spec fn separator_after(prev: Seq<u8>) -> Seq<u8> {
    if prev.len() > 0 && prev.last() != 10 {
        text::newline()
    } else {
        Seq::empty()
    }
}

/// The cross-reference part of an incremental save of the revision `doc`, whose appended
/// objects were recorded in `written`, starting at position `at`, with `tr` the trailer as
/// written: a classic table of just those entries and the trailer, or a cross-reference
/// stream that covers them and itself.
pub open spec fn increment_xref(
    doc: Document,
    xref_type: XrefType,
    written: Map<u32, XrefEntry>,
    at: int,
    tr: Seq<(Vec<u8>, Object)>,
) -> (Piece, ErrorKind) {
    match xref_type {
        XrefType::CrossReferenceTable => (
            then(done(table_bytes(written)), trailer_piece(tr)),
            ErrorKind::InvalidData,
        ),
        XrefType::CrossReferenceStream => {
            if at > u32::MAX {
                ((Seq::empty(), false), ErrorKind::InvalidInput)
            } else {
                let id = (doc.max_id + 1) as u32;
                let entries = stream_entries(written, doc.reference_table.entries@, id, at as u32, false);
                (
                    stream_object_piece(id, tr, stream_records(stream_sections(entries))),
                    ErrorKind::InvalidData,
                )
            }
        },
    }
}

/// The trailer `tr` that an incremental save writes, from the trailer `start` it begins
/// with: the `Size` of a table, or the entries of a cross-reference stream.
pub open spec fn increment_trailer(
    doc: Document,
    xref_type: XrefType,
    written: Map<u32, XrefEntry>,
    at: int,
    start: crate::object::DictView,
    tr: crate::object::DictView,
) -> bool {
    match xref_type {
        XrefType::CrossReferenceTable => tr == set_pairs(
            start,
            text::key_size(),
            Object::Integer((doc.max_id + 1) as i64),
        ),
        XrefType::CrossReferenceStream => {
            if at > u32::MAX {
                tr == start
            } else {
                let id = (doc.max_id + 1) as u32;
                let table = doc.reference_table.entries@;
                let entries = stream_entries(written, table, id, at as u32, false);
                xref_trailer(
                    start,
                    tr,
                    stream_size(written, table, id, at as u32, false),
                    index_items(stream_sections(entries)),
                    stream_records(stream_sections(entries)).len(),
                )
            }
        },
    }
}

/// The revision once its cross-reference part is written: a stream takes the next object
/// number when it can be located.
pub open spec fn increment_max_id(doc: Document, xref_type: XrefType, at: int) -> u32 {
    if xref_type == XrefType::CrossReferenceStream && at <= u32::MAX {
        (doc.max_id + 1) as u32
    } else {
        doc.max_id
    }
}

impl IncrementalDocument {
    /// Writes the cross-reference part of an incremental save whose appended objects were
    /// recorded in `xref`, with the trailer the new revision has now.
    fn write_increment_xref(&mut self, file: &mut Output, xref: &mut Xref) -> (r: Result<
        (),
        SaveError,
    >)
        requires
            forall|k: u32| #[trigger]
                old(xref).entries@.contains_key(k) ==> old(xref).entries@[k] is Normal,
            old(xref).cross_reference_type == old(self).prev_documents.reference_table.cross_reference_type,
            old(self).new_document.max_id < u32::MAX,
            old(xref).cross_reference_type == XrefType::CrossReferenceStream && old(file).count()
                <= u32::MAX ==> old(self).new_document.max_id + 2 <= u32::MAX,
        ensures
            ({
                let doc = old(self).new_document;
                let ty = old(xref).cross_reference_type;
                let at = old(file).count() as int;
                let (x, k) = increment_xref(doc, ty, old(xref).entries@, at, final(self).new_document.trailer.entries@);
                &&& wrote(*old(file), *final(file), x, r is Ok)
                &&& failed_as(r, *old(file), x, k)
                &&& final(self).bytes_documents == old(self).bytes_documents
                &&& final(self).prev_documents == old(self).prev_documents
                &&& same_but_trailer(doc, final(self).new_document)
                &&& old(file).count() + x.0.len() <= usize::MAX ==> {
                    &&& final(self).new_document.max_id == increment_max_id(doc, ty, at)
                    &&& increment_trailer(
                        doc,
                        ty,
                        old(xref).entries@,
                        at,
                        doc.trailer@,
                        final(self).new_document.trailer@,
                    )
                }
            }),
    {
        let ghost w = xref.entries@;
        let ghost f0 = *file;
        match xref.cross_reference_type {
            XrefType::CrossReferenceTable => {
                assert(!has_null(w) && !has_compressed(w));
                let r = Writer::write_xref(file, xref);
                let ghost tb = table_bytes(w);
                if r.is_err() {
                    proof {
                        let whole = then(done(tb), trailer_piece(self.new_document.trailer.entries@));
                        lemma_extends_then(done(tb), trailer_piece(self.new_document.trailer.entries@));
                        lemma_wrote_extend(f0, *file, done(tb), whole);
                        lemma_extends_len(whole, done(tb));
                    }
                    return r;
                }
                let ghost f1 = *file;
                let size = self.new_document.max_id + 1;
                let r = self.new_document.write_trailer(file, size);
                proof {
                    lemma_wrote_then(f0, f1, *file, done(tb), trailer_piece(self.new_document.trailer.entries@), true, r is Ok);
                }
                r
            },
            XrefType::CrossReferenceStream => {
                let r = self.new_document.write_cross_reference_stream(file, xref, false);
                proof {
                    if f0.count() > u32::MAX {
                        assert(wrote(f0, *file, (Seq::<u8>::empty(), false), false)) by {
                            assert(f0.sink()@ + Seq::<u8>::empty().take(0) =~= f0.sink()@);
                        }
                    } else {
                        let id = (old(self).new_document.max_id + 1) as u32;
                        assert(!has_null(w.insert(id, XrefEntry::Normal { offset: f0.count() as u32, generation: 0 })));
                    }
                }
                r
            },
        }
    }
}

/// An incremental save of `inc` from position `start`, for the encryption results `shown`
/// and the trailer as written `tr`: the previous file, a line feed when it lacks one, the
/// appended objects, the cross-reference part and the footer; the kind of error that stops
/// it; whether it reaches the cross-reference part; where that part starts; and the entries
/// recorded for the appended objects.
pub open spec fn incremental_save(
    inc: IncrementalDocument,
    shown: Option<Seq<Object>>,
    tr: Seq<(Vec<u8>, Object)>,
    start: int,
) -> (Piece, ErrorKind, bool, int, Map<u32, XrefEntry>) {
    let prev = inc.prev_bytes();
    let head = done(prev + separator_after(prev));
    let body_start = start + head.0.len();
    let doc = inc.newer();
    let (b, written, body_kind) = appended_run(doc.objects@, shown, body_start);
    let xref_start = body_start + b.0.len();
    let (x, xref_kind) = increment_xref(
        doc,
        inc.prev().reference_table.cross_reference_type,
        written,
        xref_start,
        tr,
    );
    (
        then(then(then(head, b), x), done(footer(xref_start as nat))),
        if !b.1 {
            body_kind
        } else {
            xref_kind
        },
        b.1,
        xref_start,
        written,
    )
}

/// The entries the cross-reference part of an incremental save describes: those of the
/// appended objects, and for a stream the stream's own entry at the part's position.
pub open spec fn increment_entries(
    doc: Document,
    xref_type: XrefType,
    written: Map<u32, XrefEntry>,
    at: int,
) -> Map<u32, XrefEntry> {
    match xref_type {
        XrefType::CrossReferenceTable => written,
        XrefType::CrossReferenceStream => stream_entries(
            written,
            doc.reference_table.entries@,
            (doc.max_id + 1) as u32,
            at as u32,
            false,
        ),
    }
}

/// How the cross-reference part of an incremental save begins: the keyword `xref` for a
/// table, the line that opens the stream object for a stream.
pub open spec fn increment_opening(doc: Document, xref_type: XrefType) -> Seq<u8> {
    match xref_type {
        XrefType::CrossReferenceTable => text::xref_kw(),
        XrefType::CrossReferenceStream => object_header((doc.max_id + 1) as u32, 0),
    }
}

/// A cross-reference part of an incremental save that completes begins with its opening.
proof fn lemma_increment_xref_opens(
    doc: Document,
    ty: XrefType,
    written: Map<u32, XrefEntry>,
    at: int,
    tr: Seq<(Vec<u8>, Object)>,
)
    ensures
        increment_xref(doc, ty, written, at, tr).0.1 ==> begins_at(
            increment_xref(doc, ty, written, at, tr).0.0,
            0,
            increment_opening(doc, ty),
        ),
{
    let x = increment_xref(doc, ty, written, at, tr).0;
    let opener = increment_opening(doc, ty);
    if x.1 {
        match ty {
            XrefType::CrossReferenceTable => {
                let tb = table_bytes(written);
                assert(x.0 =~= opener + (tb.skip(opener.len() as int) + x.0.skip(tb.len() as int)));
                lemma_begins_with(opener, tb.skip(opener.len() as int) + x.0.skip(tb.len() as int));
            },
            XrefType::CrossReferenceStream => {
                assert(x.0 =~= opener + x.0.skip(opener.len() as int));
                lemma_begins_with(opener, x.0.skip(opener.len() as int));
            },
        }
    }
}

/// An incremental save keeps the previous file byte for byte at its start; when it
/// completes, every in-use entry of the new cross-reference data points at the line that
/// opens its object, the position after `startxref` is where that data begins, and the
/// file ends with the footer.
/// An incremental save begins with the previous file and a line feed when it lacks one.
proof fn lemma_incremental_head(
    inc: IncrementalDocument,
    shown: Option<Seq<Object>>,
    tr: Seq<(Vec<u8>, Object)>,
    start: int,
)
    ensures
        ({
            let prev = inc.prev_bytes();
            let whole = incremental_save(inc, shown, tr, start).0;
            &&& whole.0.len() >= (prev + separator_after(prev)).len()
            &&& whole.0 == (prev + separator_after(prev)) + whole.0.skip(
                (prev + separator_after(prev)).len() as int,
            )
        }),
{
    let prev = inc.prev_bytes();
    let head = prev + separator_after(prev);
    let whole = incremental_save(inc, shown, tr, start).0;
    assert(whole.0 =~= head + whole.0.skip(head.len() as int));
}

/// An incremental save keeps the previous file byte for byte at its start; when it
/// completes, every in-use entry of the new cross-reference data points at the line that
/// opens its object, the position after `startxref` is where that data begins, and the
/// file ends with the footer.
pub proof fn lemma_incremental_save_locates(
    inc: IncrementalDocument,
    shown: Option<Seq<Object>>,
    tr: Seq<(Vec<u8>, Object)>,
    start: int,
)
    requires
        start >= 0,
    ensures
        ({
            let (whole, kind, reached, xs, written) = incremental_save(inc, shown, tr, start);
            let ty = inc.prev().reference_table.cross_reference_type;
            let m = increment_entries(inc.newer(), ty, written, xs);
            &&& begins_at(whole.0, 0, inc.prev_bytes())
            &&& whole.1 ==> {
                &&& forall|k: u32| #[trigger] m.contains_key(k) ==> locates(whole.0, start, k, m[k])
                &&& begins_at(whole.0, xs - start, increment_opening(inc.newer(), ty))
                &&& begins_at(
                    whole.0,
                    whole.0.len() - footer(xs as nat).len(),
                    footer(xs as nat),
                )
            }
        }),
{
    let prev = inc.prev_bytes();
    let head = prev + separator_after(prev);
    let whole = incremental_save(inc, shown, tr, start).0;
    let rest = whole.0.skip(head.len() as int);
    lemma_incremental_head(inc, shown, tr, start);
    lemma_begins_with(prev, separator_after(prev) + rest);
    assert(prev + (separator_after(prev) + rest) =~= head + rest);
    lemma_incremental_tail_locates(inc, shown, tr, start);
}

/// An in-use entry of the cross-reference part of an incremental save is that of an
/// appended object, or, for a stream, the stream's own entry at the part's position.
proof fn lemma_increment_in_use(doc: Document, ty: XrefType, written: Map<u32, XrefEntry>, at: int, k: u32)
    requires
        increment_entries(doc, ty, written, at).contains_key(k),
    ensures
        (written.contains_key(k) && written[k] == increment_entries(doc, ty, written, at)[k]) || (ty
            == XrefType::CrossReferenceStream && k == (doc.max_id + 1) as u32
            && increment_entries(doc, ty, written, at)[k] == XrefEntry::Normal {
            offset: at as u32,
            generation: 0,
        }),
{
}

/// Entries that point into bytes written after `pre` still point at the same lines once
/// `pre` comes before them and more bytes follow.
pub proof fn lemma_locates_shift(pre: Seq<u8>, bytes: Seq<u8>, more: Seq<u8>, start: int, m: Map<u32, XrefEntry>)
    requires
        forall|k: u32| #[trigger] m.contains_key(k) ==> locates(bytes, start + pre.len(), k, m[k]),
    ensures
        forall|k: u32| #[trigger] m.contains_key(k) ==> locates(pre + bytes + more, start, k, m[k]),
{
    assert forall|k: u32| #[trigger] m.contains_key(k) implies locates(pre + bytes + more, start, k, m[k]) by {
        if let XrefEntry::Normal { offset, generation } = m[k] {
            assert(locates(bytes, start + pre.len(), k, m[k]));
            lemma_begins_at_moves(pre, bytes, more, offset - (start + pre.len()), object_header(k, generation));
        }
    }
}

/// The part of an incremental save after the previous file, when it completes.
proof fn lemma_incremental_tail_locates(
    inc: IncrementalDocument,
    shown: Option<Seq<Object>>,
    tr: Seq<(Vec<u8>, Object)>,
    start: int,
)
    requires
        start >= 0,
    ensures
        ({
            let (whole, kind, reached, xs, written) = incremental_save(inc, shown, tr, start);
            let ty = inc.prev().reference_table.cross_reference_type;
            let m = increment_entries(inc.newer(), ty, written, xs);
            whole.1 ==> {
                &&& forall|k: u32| #[trigger] m.contains_key(k) ==> locates(whole.0, start, k, m[k])
                &&& begins_at(whole.0, xs - start, increment_opening(inc.newer(), ty))
                &&& begins_at(
                    whole.0,
                    whole.0.len() - footer(xs as nat).len(),
                    footer(xs as nat),
                )
            }
        }),
{
    let prev = inc.prev_bytes();
    let head = prev + separator_after(prev);
    let body_start = start + head.len();
    let doc = inc.newer();
    let ty = inc.prev().reference_table.cross_reference_type;
    let (b, written, bk) = appended_run(doc.objects@, shown, body_start);
    let xs = body_start + b.0.len();
    let x = increment_xref(doc, ty, written, xs, tr).0;
    let f = footer(xs as nat);
    let whole = incremental_save(inc, shown, tr, start).0;
    if whole.1 {
        assert(b.1 && x.1);
        let all = head + b.0 + x.0 + f;
        assert(whole.0 =~= all);
        lemma_appended_locates(doc.objects@, shown, body_start);
        lemma_begins_with(f, Seq::empty());
        lemma_begins_at_moves(head + b.0 + x.0, f, Seq::empty(), 0, f);
        assert(head + b.0 + x.0 + f + Seq::<u8>::empty() =~= all);
        let opener = increment_opening(doc, ty);
        lemma_increment_xref_opens(doc, ty, written, xs, tr);
        lemma_begins_at_moves(head + b.0, x.0, f, 0, opener);
        let m = increment_entries(doc, ty, written, xs);
        lemma_locates_shift(head, b.0, x.0 + f, start, written);
        assert(head + b.0 + (x.0 + f) =~= all);
        assert forall|k: u32| #[trigger] m.contains_key(k) implies locates(all, start, k, m[k]) by {
            lemma_increment_in_use(doc, ty, written, xs, k);
        }
    }
}

/// The trailer an incremental save begins its cross-reference part with: the revision's
/// own, or, for an encrypted revision, one written as the revision's with its `/Encrypt`
/// entry restored.
pub open spec fn begins(inc: IncrementalDocument, start: crate::object::DictView) -> bool {
    match inc.prev().encryption_state {
        Some(state) => pairs_alike(
            start,
            set_pairs(
                inc.newer().trailer@,
                text::key_encrypt(),
                Object::Reference(state.encrypt_id()->0),
            ),
        ),
        None => start == inc.newer().trailer@,
    }
}

/// The new revision once an incremental save is over: it takes the stream's number when a
/// cross-reference stream is written; its trailer is the one written, but for an encrypted
/// revision, which keeps the trailer it had.
pub open spec fn incremental_state(
    old: IncrementalDocument,
    new: IncrementalDocument,
    shown: Option<Seq<Object>>,
    start: crate::object::DictView,
    tr: Dictionary,
    pos: int,
) -> bool {
    let (_whole, _kind, reached, xref_start, written) = incremental_save(old, shown, tr.entries@, pos);
    let ty = old.prev().reference_table.cross_reference_type;
    &&& new.prev_bytes() == old.prev_bytes()
    &&& new.prev() == old.prev()
    &&& same_but_trailer(old.newer(), new.newer())
    &&& reached ==> new.newer().max_id == increment_max_id(old.newer(), ty, xref_start)
    &&& reached ==> increment_trailer(old.newer(), ty, written, xref_start, start, tr@)
    &&& !reached ==> new.newer().max_id == old.newer().max_id
    &&& (!reached || old.prev().encryption_state is Some) ==> new.newer().trailer == old.newer().trailer
    &&& (reached && old.prev().encryption_state is None) ==> new.newer().trailer == tr
}

/// An incremental save of a decrypted revision, finished or not, leaves the revision's
/// trailer and objects as they were: only copies of the objects are encrypted.
pub proof fn lemma_decrypted_revision_kept(
    old: IncrementalDocument,
    new: IncrementalDocument,
    shown: Option<Seq<Object>>,
    start: crate::object::DictView,
    tr: Dictionary,
    pos: int,
)
    requires
        incremental_state(old, new, shown, start, tr, pos),
        old.prev().encryption_state is Some,
    ensures
        new.newer().trailer == old.newer().trailer,
        new.newer().objects == old.newer().objects,
{
}

impl IncrementalDocument {
    /// Writes the previous file, then a line feed when it does not end with one.
    fn write_previous(&self, file: &mut Output) -> (r: Result<(), SaveError>)
        ensures
            wrote(
                *old(file),
                *final(file),
                done(self.prev_bytes() + separator_after(self.prev_bytes())),
                r is Ok,
            ),
            r matches Err(e) ==> e is InvalidInput,
    {
        let ghost f0 = *file;
        let ghost prev = self.bytes_documents@;
        let r = file.put(self.bytes_documents.as_slice());
        proof {
            lemma_extends_then(done(prev), done(separator_after(prev)));
        }
        if r.is_err() {
            proof {
                lemma_wrote_extend(f0, *file, done(prev), done(prev + separator_after(prev)));
            }
            return r;
        }
        let n = self.bytes_documents.len();
        if n > 0 && self.bytes_documents[n - 1] != 10 {
            let ghost f1 = *file;
            let r = file.put(text::newline_bytes().as_slice());
            proof {
                lemma_wrote_then(f0, f1, *file, done(prev), done(text::newline()), true, r is Ok);
            }
            r
        } else {
            assert(prev + separator_after(prev) =~= prev);
            Ok(())
        }
    }
}

/// The trailer the cross-reference part of an incremental save begins with, from the
/// revision's `trailer`: the same, or, when `encrypt` names the `/Encrypt` dictionary, one
/// written as the trailer with its `/Encrypt` entry restored.
pub open spec fn tail_begins(trailer: crate::object::DictView, encrypt: Option<ObjectId>, start: crate::object::DictView) -> bool {
    match encrypt {
        Some(id) => pairs_alike(start, set_pairs(trailer, text::key_encrypt(), Object::Reference(id))),
        None => start == trailer,
    }
}

/// The end of an incremental save of the revision `doc`, from position `at`: the
/// cross-reference part with the trailer `tr` as written, and the footer; how it fails;
/// and the revision it leaves, `after`.
pub open spec fn tail_done(
    doc: Document,
    after: Document,
    ty: XrefType,
    written: Map<u32, XrefEntry>,
    encrypt: Option<ObjectId>,
    start: crate::object::DictView,
    tr: Dictionary,
    before: Output,
    now: Output,
    r: Result<(), SaveError>,
) -> bool {
    let at = before.count() as int;
    let (x, k) = increment_xref(doc, ty, written, at, tr.entries@);
    let whole = then(x, done(footer(at as nat)));
    &&& tail_begins(doc.trailer@, encrypt, start)
    &&& wrote(before, now, whole, r is Ok)
    &&& failed_as(r, before, whole, k)
    &&& same_but_trailer(doc, after)
    &&& before.count() + whole.0.len() <= usize::MAX ==> {
        &&& after.max_id == increment_max_id(doc, ty, at)
        &&& increment_trailer(doc, ty, written, at, start, tr@)
        &&& encrypt is Some ==> after.trailer == doc.trailer
        &&& encrypt is None ==> after.trailer == tr
    }
}

impl IncrementalDocument {
    /// Writes the cross-reference part and the footer of an incremental save; for an
    /// encrypted revision, with a copy of the trailer that restores its `/Encrypt` entry,
    /// the revision's own trailer being put back afterwards.
    fn write_increment_tail(&mut self, file: &mut Output, xref: &mut Xref, encrypt: Option<ObjectId>) -> (r:
        Result<(), SaveError>)
        requires
            forall|k: u32| #[trigger]
                old(xref).entries@.contains_key(k) ==> old(xref).entries@[k] is Normal,
            old(xref).cross_reference_type == old(self).prev_documents.reference_table.cross_reference_type,
            old(self).new_document.max_id < u32::MAX,
            old(xref).cross_reference_type == XrefType::CrossReferenceStream
                ==> old(self).new_document.max_id + 2 <= u32::MAX,
        ensures
            exists|start: crate::object::DictView, tr: Dictionary| #[trigger]
                tail_done(
                    old(self).new_document,
                    final(self).new_document,
                    old(xref).cross_reference_type,
                    old(xref).entries@,
                    encrypt,
                    start,
                    tr,
                    *old(file),
                    *final(file),
                    r,
                ),
            final(self).bytes_documents == old(self).bytes_documents,
            final(self).prev_documents == old(self).prev_documents,
    {
        let ghost doc0 = self.new_document;
        let ghost w = xref.entries@;
        let ghost ty = xref.cross_reference_type;
        let ghost f0 = *file;
        let saved: Option<Dictionary> = match encrypt {
            Some(id) => {
                let mut orig = Dictionary::new();
                std::mem::swap(&mut orig, &mut self.new_document.trailer);
                let mut working = copy_dictionary(&orig);
                proof {
                    lemma_set_alike(working@, orig@, text::key_encrypt(), Object::Reference(id));
                }
                working.set(text::key_encrypt_bytes(), Object::Reference(id));
                self.new_document.trailer = working;
                Some(orig)
            },
            None => None,
        };
        let ghost start = self.new_document.trailer@;
        let ghost doc1 = self.new_document;
        assert(tail_begins(doc0.trailer@, encrypt, start));
        let xref_start = file.bytes_written();
        let r = self.write_increment_xref(file, xref);
        let ghost tr = self.new_document.trailer;
        let ghost f1 = *file;
        let ghost x = increment_xref(doc1, ty, w, f0.count() as int, tr.entries@);
        assert(x == increment_xref(doc0, ty, w, f0.count() as int, tr.entries@));
        let ghost whole = then(x.0, done(footer(f0.count() as nat)));
        proof {
            lemma_extends_then(x.0, done(footer(f0.count() as nat)));
            lemma_extends_len(whole, x.0);
        }
        let r = if r.is_ok() {
            let r2 = Document::write_footer(file, xref_start);
            proof {
                lemma_wrote_then(f0, f1, *file, x.0, done(footer(f0.count() as nat)), true, r2 is Ok);
            }
            r2
        } else {
            proof {
                lemma_wrote_extend(f0, f1, x.0, whole);
            }
            r
        };
        match saved {
            Some(orig) => {
                self.new_document.trailer = orig;
            },
            None => {},
        }
        assert(tail_done(doc0, self.new_document, ty, w, encrypt, start, tr, f0, *file, r));
        r
    }
}

/// An incremental save of `old` that ended with `new`, for the encryption results `shown`,
/// the trailer `start` its cross-reference part began with and the trailer `tr` it wrote:
/// the output, how it failed, and the document left.
pub open spec fn increment_done(
    old: IncrementalDocument,
    new: IncrementalDocument,
    shown: Option<Seq<Object>>,
    start: crate::object::DictView,
    tr: Dictionary,
    before: Output,
    now: Output,
    r: Result<(), SaveError>,
) -> bool {
    let (whole, kind, _reached, _xref_start, _written) = incremental_save(
        old,
        shown,
        tr.entries@,
        before.count() as int,
    );
    &&& begins(old, start)
    &&& wrote(before, now, whole, r is Ok)
    &&& crate::packing::failed_with(r, before, whole, kind)
    &&& before.count() + whole.0.len() <= usize::MAX ==> incremental_state(
        old,
        new,
        shown,
        start,
        tr,
        before.count() as int,
    )
}

/// The encryption results a save was handed, as a sequence.
pub open spec fn shown_view(shown: Option<&Vec<Object>>) -> Option<Seq<Object>> {
    match shown {
        Some(l) => Some(l@),
        None => None,
    }
}

/// The trailer an incremental save that stops early would begin with.
pub open spec fn default_start(inc: IncrementalDocument) -> crate::object::DictView {
    match inc.prev().encryption_state {
        Some(state) => set_pairs(
            inc.newer().trailer@,
            text::key_encrypt(),
            Object::Reference(state.encrypt_id()->0),
        ),
        None => inc.newer().trailer@,
    }
}

/// The bytes before the objects of an incremental save.
pub open spec fn head_piece(inc: IncrementalDocument) -> Piece {
    done(inc.prev_bytes() + separator_after(inc.prev_bytes()))
}

/// An incremental save that stopped in the previous bytes or among the objects leaves the
/// document as it was.
proof fn lemma_increment_stopped(
    inc: IncrementalDocument,
    shown: Option<Seq<Object>>,
    f0: Output,
    f1: Output,
    now: Output,
    r: Result<(), SaveError>,
    in_head: bool,
)
    requires
        in_head ==> wrote(f0, now, head_piece(inc), false) && (r matches Err(e) && e is InvalidInput),
        !in_head ==> {
            let b = appended_run(inc.newer().objects@, shown, f1.count() as int);
            &&& wrote(f0, f1, head_piece(inc), true)
            &&& wrote(f1, now, b.0, false)
            &&& r matches Err(e) ==> ((e is InvalidData || e is InvalidInput || e is Other) && (
                f1.count() + b.0.0.len() <= usize::MAX ==> kind_of(e) == b.2))
        },
        r is Err,
        begins(inc, default_start(inc)),
    ensures
        increment_done(inc, inc, shown, default_start(inc), inc.newer().trailer, f0, now, r),
{
    let tr0 = inc.newer().trailer;
    let head = head_piece(inc);
    let (whole, _k, _re, xs, wr) = incremental_save(inc, shown, tr0.entries@, f0.count() as int);
    let b = appended_run(inc.newer().objects@, shown, f0.count() + head.0.len()).0;
    let x = increment_xref(inc.newer(), inc.prev().reference_table.cross_reference_type, wr, xs, tr0.entries@).0;
    lemma_extends_then(head, b);
    lemma_extends_then(then(head, b), x);
    lemma_extends_then(then(then(head, b), x), done(footer(xs as nat)));
    lemma_extends_trans(whole, then(then(head, b), x), then(head, b));
    lemma_extends_trans(whole, then(head, b), head);
    lemma_extends_len(whole, head);
    if in_head {
        lemma_wrote_extend(f0, now, head, whole);
    } else {
        lemma_extends_refl(b);
        lemma_step_fail(f0, f1, now, head, b, b, whole);
    }
}

/// An incremental save whose objects were written writes what its tail writes after them.
proof fn lemma_increment_tail(
    inc: IncrementalDocument,
    after: Document,
    shown: Option<Seq<Object>>,
    encrypt: Option<ObjectId>,
    start: crate::object::DictView,
    tr: Dictionary,
    f0: Output,
    f1: Output,
    f2: Output,
    now: Output,
    r: Result<(), SaveError>,
)
    requires
        wrote(f0, f1, head_piece(inc), true),
        wrote(f1, f2, appended_run(inc.newer().objects@, shown, f1.count() as int).0, true),
        tail_done(
            inc.newer(),
            after,
            inc.prev().reference_table.cross_reference_type,
            appended_run(inc.newer().objects@, shown, f1.count() as int).1,
            encrypt,
            start,
            tr,
            f2,
            now,
            r,
        ),
        encrypt == match inc.prev().encryption_state {
            Some(state) => state.encrypt_id(),
            None => None,
        },
        !refused(inc.prev()),
        r matches Err(e) ==> (e is InvalidData || e is InvalidInput),
    ensures
        increment_done(
            inc,
            IncrementalDocument { new_document: after, ..inc },
            shown,
            start,
            tr,
            f0,
            now,
            r,
        ),
{
    let head = head_piece(inc);
    let b = appended_run(inc.newer().objects@, shown, f1.count() as int);
    let xs = f2.count() as int;
    let x = increment_xref(inc.newer(), inc.prev().reference_table.cross_reference_type, b.1, xs, tr.entries@).0;
    let tail = then(x, done(footer(xs as nat)));
    lemma_wrote_then(f0, f1, f2, head, b.0, true, true);
    lemma_wrote_then(f0, f2, now, then(head, b.0), tail, true, r is Ok);
    crate::sink::lemma_then_assoc(then(head, b.0), x, done(footer(xs as nat)));
}

impl IncrementalDocument {
    /// Writes the new revision after the previous file: the previous bytes, a line feed
    /// when they lack one, the revision's objects (for an encrypted revision, as `shown`
    /// gives them), the cross-reference part and the footer.
    fn write_increment(&mut self, file: &mut Output, shown: Option<&Vec<Object>>) -> (r: Result<
        (),
        SaveError,
    >)
        requires
            !refused(old(self).prev()),
            (shown is Some) == (old(self).prev().encryption_state is Some),
            old(self).newer().max_id < u32::MAX,
            old(self).prev().reference_table.cross_reference_type == XrefType::CrossReferenceStream
                ==> old(self).newer().max_id + 2 <= u32::MAX,
        ensures
            exists|start: crate::object::DictView, tr: Dictionary| #[trigger]
                increment_done(
                    *old(self),
                    *final(self),
                    shown_view(shown),
                    start,
                    tr,
                    *old(file),
                    *final(file),
                    r,
                ),
    {
        let ghost inc0 = *self;
        let ghost f0 = *file;
        let ghost shown_v = shown_view(shown);
        let ghost s0 = default_start(inc0);
        proof {
            assert(pairs_alike(s0, s0));
            assert(begins(inc0, s0));
        }
        let mut xref = Xref::new(
            self.new_document.max_id + 1,
            self.prev_documents.reference_table.cross_reference_type,
        );
        let r = self.write_previous(file);
        if r.is_err() {
            proof {
                lemma_increment_stopped(inc0, shown_v, f0, f0, *file, r, true);
            }
            return r;
        }
        let ghost f1 = *file;
        let r = self.write_appended_objects(file, &mut xref, shown);
        if r.is_err() {
            proof {
                lemma_increment_stopped(inc0, shown_v, f0, f1, *file, r, false);
            }
            return r;
        }
        let ghost f2 = *file;
        proof {
            lemma_appended_entries(inc0.newer().objects@, shown_v, f1.count() as int);
        }
        let encrypt: Option<ObjectId> = match &self.prev_documents.encryption_state {
            Some(state) => state.encrypt_object_id(),
            None => None,
        };
        let r = self.write_increment_tail(file, &mut xref, encrypt);
        proof {
            let (start, tr) = choose|start: crate::object::DictView, tr: Dictionary|
                #[trigger] tail_done(
                    inc0.newer(),
                    self.new_document,
                    inc0.prev().reference_table.cross_reference_type,
                    appended_run(inc0.newer().objects@, shown_v, f1.count() as int).1,
                    encrypt,
                    start,
                    tr,
                    f2,
                    *file,
                    r,
                );
            lemma_increment_tail(inc0, self.new_document, shown_v, encrypt, start, tr, f0, f1, f2, *file, r);
            assert(*self == IncrementalDocument { new_document: self.new_document, ..inc0 });
        }
        r
    }
}

/// The copied objects of fewer objects lead those of more.
pub proof fn lemma_copied_prefix(objs: Seq<(ObjectId, Object)>, i: int)
    requires
        0 <= i <= objs.len(),
    ensures
        copied_objects(objs.take(i)).len() <= copied_objects(objs).len(),
        copied_objects(objs).take(copied_objects(objs.take(i)).len() as int) == copied_objects(
            objs.take(i),
        ),
    decreases objs.len() - i,
{
    if i < objs.len() {
        let shorter = objs.drop_last();
        assert(shorter.take(i) =~= objs.take(i));
        lemma_copied_prefix(shorter, i);
        let c = copied_objects(shorter);
        let k = copied_objects(objs.take(i)).len() as int;
        assert(copied_objects(objs).take(k) =~= c.take(k));
    } else {
        assert(objs.take(i) =~= objs);
        assert(copied_objects(objs).take(copied_objects(objs).len() as int) =~= copied_objects(objs));
    }
}

/// What `cipher` made of the copied objects of a revision under `state`, one at a time
/// in order until one failed: `made` holds the objects it returned, and when it falls
/// short, the cipher reported an error for the next copied object.
pub open spec fn cipher_made<F: Fn(&EncryptionState, ObjectId, &Object) -> Result<Object, SaveError>>(
    cipher: F,
    state: EncryptionState,
    copied: Seq<(ObjectId, Object)>,
    made: Seq<Object>,
) -> bool {
    &&& made.len() <= copied.len()
    &&& forall|i: int|
        0 <= i < made.len() ==> cipher.ensures((&state, copied[i].0, &copied[i].1), Ok(#[trigger] made[i]))
    &&& made.len() < copied.len() ==> exists|e: SaveError|
        cipher.ensures(
            (&state, copied[made.len() as int].0, &copied[made.len() as int].1),
            Err::<Object, SaveError>(e),
        )
}

/// An incremental save of `old` to the end of `before`, with the encryption `cipher`,
/// that gave `now` and `r` and left `new`: the results of the cipher, the trailers the
/// cross-reference part began with and wrote, the bytes appended, how it failed, and the
/// document left.
pub open spec fn saved_increment<F: Fn(&EncryptionState, ObjectId, &Object) -> Result<Object, SaveError>>(
    old: IncrementalDocument,
    new: IncrementalDocument,
    cipher: F,
    shown: Option<Seq<Object>>,
    start: crate::object::DictView,
    tr: Dictionary,
    before: Seq<u8>,
    now: Seq<u8>,
    r: Result<(), SaveError>,
) -> bool {
    let (whole, kind, _reached, _xref_start, _written) = incremental_save(old, shown, tr.entries@, 0);
    &&& match old.prev().encryption_state {
        Some(state) => shown matches Some(made) && cipher_made(
            cipher,
            state,
            copied_objects(old.newer().objects@),
            made,
        ),
        None => shown is None,
    }
    &&& begins(old, start)
    &&& appended(before, now, whole, r is Ok)
    &&& whole.0.len() <= usize::MAX ==> (r matches Err(e) ==> kind_of(e) == kind)
    &&& r matches Err(e) ==> e is InvalidData || e is InvalidInput || e is Other
    &&& whole.0.len() <= usize::MAX ==> incremental_state(old, new, shown, start, tr, 0)
}

impl IncrementalDocument {
    /// Encrypts, with `cipher` under `state`, the objects of the new revision that a save
    /// copies, in order, stopping at the first one the cipher fails on.
    fn encrypt_copied<F: Fn(&EncryptionState, ObjectId, &Object) -> Result<Object, SaveError>>(
        &self,
        state: &EncryptionState,
        cipher: &F,
    ) -> (made: Vec<Object>)
        requires
            forall|s: &EncryptionState, id: ObjectId, o: &Object| #[trigger] cipher.requires((s, id, o)),
        ensures
            cipher_made(*cipher, *state, copied_objects(self.new_document.objects@), made@),
    {
        let ghost objs = self.new_document.objects@;
        let n = self.new_document.objects.len();
        let mut made: Vec<Object> = Vec::new();
        let mut i: usize = 0;
        proof {
            assert(objs.take(0) =~= Seq::<(ObjectId, Object)>::empty());
        }
        while i < n
            invariant
                i <= n == objs.len(),
                objs == self.new_document.objects@,
                forall|s: &EncryptionState, id: ObjectId, o: &Object| #[trigger] cipher.requires((s, id, o)),
                made@.len() == copied_objects(objs.take(i as int)).len(),
                forall|k: int|
                    0 <= k < made@.len() ==> cipher.ensures(
                        (state, copied_objects(objs.take(i as int))[k].0, &copied_objects(objs.take(i as int))[k].1),
                        Ok(#[trigger] made@[k]),
                    ),
            decreases n - i,
        {
            let ghost before = copied_objects(objs.take(i as int));
            assert(objs.take(i + 1).drop_last() =~= objs.take(i as int));
            let (id, object) = self.new_document.objects.at(i);
            if !is_generated(object) {
                let ghost after = copied_objects(objs.take(i + 1));
                assert(after == before.push((id, *object)));
                match cipher(state, id, object) {
                    Ok(o) => {
                        made.push(o);
                        assert forall|k: int| 0 <= k < made@.len() implies cipher.ensures(
                            (state, after[k].0, &after[k].1),
                            Ok(#[trigger] made@[k]),
                        ) by {
                            if k < made@.len() - 1 {
                                assert(after[k] == before[k]);
                            }
                        }
                    },
                    Err(e) => {
                        proof {
                            lemma_copied_prefix(objs, i + 1);
                            lemma_copied_prefix(objs, i as int);
                            let all = copied_objects(objs);
                            assert(all[made@.len() as int] == after[made@.len() as int]);
                            assert forall|k: int| 0 <= k < made@.len() implies cipher.ensures(
                                (state, all[k].0, &all[k].1),
                                Ok(#[trigger] made@[k]),
                            ) by {
                                assert(all[k] == before[k]);
                            }
                        }
                        return made;
                    },
                }
            }
            i = i + 1;
        }
        proof {
            assert(objs.take(i as int) =~= objs);
        }
        made
    }

    /// Appends the new revision to the end of `target`: the previous file, a line feed when
    /// it lacks one, the revision's objects, the cross-reference part (a table of just the
    /// appended objects, or a cross-reference stream) and the footer. For a previous
    /// revision that was decrypted, each object is written as `encrypt_object` encrypts it,
    /// a failure stopping the save with `Other`, and the trailer written restores the
    /// `/Encrypt` reference while the revision keeps its own. A previous revision that is
    /// still encrypted, or whose `/Encrypt` dictionary was not recorded, is `Unsupported`
    /// before anything is written or changed.
    pub fn save_to<F: Fn(&EncryptionState, ObjectId, &Object) -> Result<Object, SaveError>>(
        &mut self,
        target: &mut Vec<u8>,
        encrypt_object: F,
    ) -> (r: Result<(), SaveError>)
        requires
            forall|s: &EncryptionState, id: ObjectId, o: &Object| #[trigger] encrypt_object.requires((s, id, o)),
            !refused(old(self).prev()) ==> old(self).newer().max_id < u32::MAX,
            !refused(old(self).prev()) && old(self).prev().reference_table.cross_reference_type
                == XrefType::CrossReferenceStream ==> old(self).newer().max_id + 2 <= u32::MAX,
        ensures
            refused(old(self).prev()) ==> (r matches Err(e) && e is Unsupported),
            refused(old(self).prev()) ==> *final(self) == *old(self),
            refused(old(self).prev()) ==> final(target)@ == old(target)@,
            !refused(old(self).prev()) ==> exists|
                shown: Option<Seq<Object>>,
                start: crate::object::DictView,
                tr: Dictionary,
            | #[trigger]
                saved_increment(
                    *old(self),
                    *final(self),
                    encrypt_object,
                    shown,
                    start,
                    tr,
                    old(target)@,
                    final(target)@,
                    r,
                ),
    {
        let checked = self.check_incremental_save_supported();
        if checked.is_err() {
            return checked;
        }
        let ghost inc0 = *self;
        let made: Option<Vec<Object>> = match &self.prev_documents.encryption_state {
            Some(state) => Some(self.encrypt_copied(state, &encrypt_object)),
            None => None,
        };
        let mut taken: Vec<u8> = Vec::new();
        std::mem::swap(&mut taken, target);
        let mut out = CountingWrite::new(taken, 0);
        let ghost f0 = out;
        let shown = made.as_ref();
        let ghost shown_v = shown_view(shown);
        let r = self.write_increment(&mut out, shown);
        proof {
            let (start, tr) = choose|start: crate::object::DictView, tr: Dictionary| #[trigger]
                increment_done(inc0, *self, shown_v, start, tr, f0, out, r);
            let whole = incremental_save(inc0, shown_v, tr.entries@, 0).0;
            lemma_appended(f0, out, whole, r is Ok);
            assert(saved_increment(inc0, *self, encrypt_object, shown_v, start, tr, old(target)@, out.sink()@, r));
        }
        *target = out.into_inner();
        r
    }
}

} // verus!
