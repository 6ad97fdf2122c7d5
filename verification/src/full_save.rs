use vstd::prelude::*;

use crate::body::{
    failed_as, lemma_indirect_begins, lemma_plain_run_skips_machinery, lemma_run_locates, locates,
    machinery_type, run,
};
use crate::document::Document;
use crate::error::{kind_of, ErrorKind, SaveError};
use crate::free_list::{full_save_max, normalized};
use crate::number::{dec, push_all, push_dec};
use crate::object::{set_pairs, Object};
use crate::save::{
    same_but_trailer, stream_entries, stream_object_piece, stream_size, trailer_piece,
    xref_trailer,
};
use crate::sink::{
    begins_at, done, extends, lemma_begins_at_moves, lemma_begins_with, lemma_extends_len, lemma_extends_refl, lemma_extends_then,
    lemma_extends_trans, lemma_step_fail, lemma_wrote_extend, lemma_wrote_then, then, wrote,
    CountingWrite, Output, Piece,
};
use crate::table::{index_items, stream_records, stream_sections, table_bytes};
use crate::text;
use crate::writer::{mark_is_binary, mark_line, object_header, Writer};
use crate::xref::{has_compressed, has_null, Xref, XrefEntry, XrefType};

verus! {

/// The header line: `%PDF-`, the version, a line feed.
pub open spec fn header_line(version: Seq<char>) -> Seq<u8> {
    text::header_prefix() + vstd::utf8::encode_utf8(version) + text::newline()
}

/// The binary mark line, or nothing and a stop when a byte of the mark is below 128.
pub open spec fn mark_piece(mark: Seq<u8>) -> Piece {
    if mark_is_binary(mark) {
        done(mark_line(mark))
    } else {
        (Seq::empty(), false)
    }
}

/// The start of a file: the header line and the binary mark line.
pub open spec fn opening(version: Seq<char>, mark: Seq<u8>) -> Piece {
    then(done(header_line(version)), mark_piece(mark))
}

/// The end of a file: `startxref`, the position of the cross-reference data, `%%EOF`.
pub open spec fn footer(xref_start: nat) -> Seq<u8> {
    text::startxref_kw() + dec(xref_start) + text::eof_marker()
}

/// The cross-reference part of a full save of `doc` whose objects were written with the
/// entries `written`, starting at position `at`: a classic table and the trailer with
/// its `Size`, or a cross-reference stream. `after` is the document once it is written.
pub open spec fn xref_part(doc: Document, after: Document, written: Map<u32, XrefEntry>, at: int) -> (
    Piece,
    ErrorKind,
) {
    let table = doc.reference_table.entries@;
    match doc.reference_table.cross_reference_type {
        XrefType::CrossReferenceTable => {
            let top = full_save_max(doc.max_id, written, table);
            (
                then(
                    done(table_bytes(normalized(written, table, top))),
                    trailer_piece(after.trailer.entries@),
                ),
                ErrorKind::InvalidData,
            )
        },
        XrefType::CrossReferenceStream => {
            if at > u32::MAX {
                ((Seq::empty(), false), ErrorKind::InvalidInput)
            } else {
                let id = (doc.max_id + 1) as u32;
                let entries = stream_entries(written, table, id, at as u32, true);
                (
                    stream_object_piece(
                        id,
                        after.trailer.entries@,
                        stream_records(stream_sections(entries)),
                    ),
                    ErrorKind::InvalidData,
                )
            }
        },
    }
}

/// The highest object number the cross-reference part covers stays below `u32::MAX`, so
/// that the size one past it is a `u32`.
pub open spec fn xref_part_fits(doc: Document, written: Map<u32, XrefEntry>, at: int) -> bool {
    let table = doc.reference_table.entries@;
    match doc.reference_table.cross_reference_type {
        XrefType::CrossReferenceTable => full_save_max(doc.max_id, written, table) < u32::MAX,
        XrefType::CrossReferenceStream => at <= u32::MAX ==> doc.max_id < u32::MAX && full_save_max(
            (doc.max_id + 1) as u32,
            written.insert(
                (doc.max_id + 1) as u32,
                XrefEntry::Normal { offset: at as u32, generation: 0 },
            ),
            table,
        ) < u32::MAX,
    }
}

/// The document once its cross-reference part is written: a table updates the trailer's
/// `Size`; a stream takes the next object number and turns the trailer into its
/// dictionary; a stream that cannot be located changes nothing.
pub open spec fn xref_part_state(
    doc: Document,
    after: Document,
    written: Map<u32, XrefEntry>,
    at: int,
) -> bool {
    let table = doc.reference_table.entries@;
    match doc.reference_table.cross_reference_type {
        XrefType::CrossReferenceTable => {
            let top = full_save_max(doc.max_id, written, table);
            &&& same_but_trailer(doc, after)
            &&& after.max_id == doc.max_id
            &&& after.trailer@ == set_pairs(
                doc.trailer@,
                text::key_size(),
                Object::Integer((top + 1) as i64),
            )
        },
        XrefType::CrossReferenceStream => {
            if at > u32::MAX {
                after == doc
            } else {
                let id = (doc.max_id + 1) as u32;
                let entries = stream_entries(written, table, id, at as u32, true);
                &&& same_but_trailer(doc, after)
                &&& after.max_id == id
                &&& xref_trailer(
                    doc.trailer@,
                    after.trailer@,
                    stream_size(written, table, id, at as u32, true),
                    index_items(stream_sections(entries)),
                    stream_records(stream_sections(entries)).len(),
                )
            }
        },
    }
}

/// A full save of `doc`, written from position `start`: the opening, the objects, the
/// cross-reference part and the footer, the kind of error that stops it, the entries
/// recorded for the objects, and where the cross-reference part starts.
pub open spec fn full_save(doc: Document, after: Document, start: int) -> (
    Piece,
    ErrorKind,
    Map<u32, XrefEntry>,
    int,
) {
    let o = opening(doc.version@, doc.binary_mark@);
    let body_start = start + o.0.len();
    let (b, written, body_kind) = run(doc.objects@, doc.trailer@, false, body_start, Map::empty());
    let xref_start = body_start + b.0.len();
    let (x, xref_kind) = xref_part(doc, after, written, xref_start);
    let whole = then(then(then(o, b), x), done(footer(xref_start as nat)));
    let kind = if !o.1 {
        ErrorKind::InvalidData
    } else if !b.1 {
        body_kind
    } else {
        xref_kind
    };
    (whole, kind, written, xref_start)
}

/// A full save of `doc` from position `start` reaches its cross-reference part within the
/// bounds of object numbers.
pub open spec fn full_save_fits(doc: Document, start: int) -> bool {
    let o = opening(doc.version@, doc.binary_mark@);
    let body_start = start + o.0.len();
    let (b, written, _k) = run(doc.objects@, doc.trailer@, false, body_start, Map::empty());
    o.1 && b.1 ==> xref_part_fits(doc, written, body_start + b.0.len())
}

/// The document once a full save from position `start` is over: as the cross-reference
/// part leaves it when the save gets there, unchanged otherwise.
pub open spec fn saved_state(doc: Document, after: Document, start: int) -> bool {
    let o = opening(doc.version@, doc.binary_mark@);
    let body_start = start + o.0.len();
    let (b, written, _k) = run(doc.objects@, doc.trailer@, false, body_start, Map::empty());
    if o.1 && b.1 {
        xref_part_state(doc, after, written, body_start + b.0.len())
    } else {
        after == doc
    }
}

/// `new` is `old` with the bytes of `piece` appended, as far as a counter of `usize`
/// reaches: all of them when they fit, and then `ok` says whether the piece completed.
pub open spec fn appended(old: Seq<u8>, new: Seq<u8>, piece: Piece, ok: bool) -> bool {
    &&& piece.0.len() <= usize::MAX ==> new == old + piece.0 && ok == piece.1
    &&& piece.0.len() > usize::MAX ==> !ok && exists|n: int|
        0 <= n <= piece.0.len() && new == old + piece.0.take(n)
}

/// Output written from an empty count is the sink's old bytes and the piece, as far as the
/// counter reaches.
pub proof fn lemma_appended(before: Output, after: Output, piece: Piece, ok: bool)
    requires
        before.count() == 0,
        wrote(before, after, piece, ok),
    ensures
        appended(before.sink()@, after.sink()@, piece, ok),
{
    if piece.0.len() <= usize::MAX {
        assert(piece.0.take(piece.0.len() as int) =~= piece.0);
    } else {
        assert(0 <= after.count() <= piece.0.len());
    }
}

/// A rebuilt entry map has no `Null` entry, and a compressed entry only where the
/// written entries had one.
pub proof fn lemma_normalized_clean(written: Map<u32, XrefEntry>, table: Map<u32, XrefEntry>, hi: u32)
    ensures
        !has_null(normalized(written, table, hi)),
        !has_compressed(written) ==> !has_compressed(normalized(written, table, hi)),
{
    reveal(crate::free_list::normalized);
    let m = normalized(written, table, hi);
    assert forall|k: u32| #[trigger] m.contains_key(k) implies !(m[k] is Null) && (m[k] is Compressed
        ==> written.contains_key(k) && written[k] is Compressed) by {
        if k != 0 && crate::free_list::is_live(written, k) {
            assert(written.contains_key(k));
        }
    }
}

/// The entries the cross-reference part of a full save describes, when the objects were
/// written with the entries `written` and the part starts at position `at`.
pub open spec fn described_entries(doc: Document, written: Map<u32, XrefEntry>, at: int) -> Map<
    u32,
    XrefEntry,
> {
    let table = doc.reference_table.entries@;
    match doc.reference_table.cross_reference_type {
        XrefType::CrossReferenceTable => normalized(
            written,
            table,
            full_save_max(doc.max_id, written, table),
        ),
        XrefType::CrossReferenceStream => stream_entries(
            written,
            table,
            (doc.max_id + 1) as u32,
            at as u32,
            true,
        ),
    }
}

/// How the cross-reference part begins: the keyword `xref` for a table, the line that
/// opens the stream object for a stream.
pub open spec fn xref_opening(doc: Document) -> Seq<u8> {
    match doc.reference_table.cross_reference_type {
        XrefType::CrossReferenceTable => text::xref_kw(),
        XrefType::CrossReferenceStream => object_header((doc.max_id + 1) as u32, 0),
    }
}

/// A cross-reference part that completes begins with its opening, and a stream one starts
/// at a position that fits in 32 bits.
proof fn lemma_xref_part_opens(doc: Document, after: Document, written: Map<u32, XrefEntry>, at: int)
    ensures
        xref_part(doc, after, written, at).0.1 ==> begins_at(
            xref_part(doc, after, written, at).0.0,
            0,
            xref_opening(doc),
        ),
        xref_part(doc, after, written, at).0.1 && doc.reference_table.cross_reference_type
            == XrefType::CrossReferenceStream ==> at <= u32::MAX,
{
    let x = xref_part(doc, after, written, at).0;
    let opener = xref_opening(doc);
    if x.1 {
        let table = doc.reference_table.entries@;
        match doc.reference_table.cross_reference_type {
            XrefType::CrossReferenceTable => {
                let tb = table_bytes(normalized(written, table, full_save_max(doc.max_id, written, table)));
                assert(x.0 =~= opener + (tb.skip(opener.len() as int) + x.0.skip(tb.len() as int)));
                lemma_begins_with(opener, tb.skip(opener.len() as int) + x.0.skip(tb.len() as int));
            },
            XrefType::CrossReferenceStream => {
                assert(x.0 =~= opener + x.0.skip(opener.len() as int));
                lemma_begins_with(opener, x.0.skip(opener.len() as int));
            },
        }
    }
}

/// An in-use entry of the cross-reference part is that of a written object, or, for a
/// stream, the stream's own entry at the part's position.
proof fn lemma_described_in_use(doc: Document, written: Map<u32, XrefEntry>, at: int, k: u32)
    requires
        described_entries(doc, written, at).contains_key(k),
        described_entries(doc, written, at)[k] is Normal,
    ensures
        (written.contains_key(k) && written[k] == described_entries(doc, written, at)[k]) || (
        doc.reference_table.cross_reference_type == XrefType::CrossReferenceStream && k == (
        doc.max_id + 1) as u32 && described_entries(doc, written, at)[k] == XrefEntry::Normal {
            offset: at as u32,
            generation: 0,
        }),
{
    reveal(normalized);
}

/// In a full save that completes, every in-use entry of the cross-reference data points
/// at the line that opens its object, the position after `startxref` is where the
/// cross-reference data begins, and the file ends with the footer.
pub proof fn lemma_full_save_locates(doc: Document, after: Document, start: int)
    requires
        start >= 0,
    ensures
        ({
            let (whole, kind, written, xs) = full_save(doc, after, start);
            let m = described_entries(doc, written, xs);
            whole.1 ==> {
                &&& forall|k: u32| #[trigger] m.contains_key(k) ==> locates(whole.0, start, k, m[k])
                &&& begins_at(whole.0, xs - start, xref_opening(doc))
                &&& begins_at(
                    whole.0,
                    whole.0.len() - footer(xs as nat).len(),
                    footer(xs as nat),
                )
            }
        }),
{
    let o = opening(doc.version@, doc.binary_mark@);
    let body_start = start + o.0.len();
    let (b, written, bk) = run(doc.objects@, doc.trailer@, false, body_start, Map::empty());
    let xs = body_start + b.0.len();
    let x = xref_part(doc, after, written, xs).0;
    let f = footer(xs as nat);
    let whole = full_save(doc, after, start).0;
    if whole.1 {
        assert(o.1 && b.1 && x.1);
        let all = o.0 + b.0 + x.0 + f;
        assert(whole.0 =~= all);
        lemma_run_locates(doc.objects@, doc.trailer@, false, body_start, Map::empty());
        lemma_begins_with(f, Seq::empty());
        lemma_begins_at_moves(o.0 + b.0 + x.0, f, Seq::empty(), 0, f);
        assert(o.0 + b.0 + x.0 + f + Seq::<u8>::empty() =~= all);
        lemma_xref_part_opens(doc, after, written, xs);
        lemma_begins_at_moves(o.0 + b.0, x.0, f, 0, xref_opening(doc));
        let m = described_entries(doc, written, xs);
        assert forall|k: u32| #[trigger] m.contains_key(k) implies locates(all, start, k, m[k]) by {
            if let XrefEntry::Normal { offset, generation } = m[k] {
                lemma_described_in_use(doc, written, xs, k);
                if written.contains_key(k) && written[k] == m[k] {
                    assert(locates(b.0, body_start, k, written[k]));
                    lemma_begins_at_moves(o.0, b.0, x.0 + f, offset - body_start, object_header(k, generation));
                    assert(o.0 + b.0 + (x.0 + f) =~= all);
                }
            }
        }
    }
}

/// A full save that completes leaves the objects as they were; the highest object number
/// stays with a classic table and grows by one, for the stream itself, with a
/// cross-reference stream.
pub proof fn lemma_saved_numbers(doc: Document, after: Document, start: int)
    requires
        doc.max_id < u32::MAX,
        saved_state(doc, after, start),
        full_save(doc, after, start).0.1,
    ensures
        after.objects == doc.objects,
        doc.reference_table.cross_reference_type == XrefType::CrossReferenceTable ==> after.max_id
            == doc.max_id,
        doc.reference_table.cross_reference_type == XrefType::CrossReferenceStream ==> after.max_id
            == doc.max_id + 1,
{
    let o = opening(doc.version@, doc.binary_mark@);
    let body_start = start + o.0.len();
    let (b, written, _k) = run(doc.objects@, doc.trailer@, false, body_start, Map::empty());
    let xs = body_start + b.0.len();
    assert(o.1 && b.1 && xref_part(doc, after, written, xs).0.1);
    lemma_xref_part_opens(doc, after, written, xs);
}

/// A full save writes every object of the document but its cross-reference machinery:
/// every number it records is that of an object whose type is not `XRef`, `ObjStm` or a
/// linearization dictionary, and a save that completes records every other object.
pub proof fn lemma_full_save_objects(doc: Document, after: Document, start: int)
    ensures
        ({
            let (whole, _kind, written, _xs) = full_save(doc, after, start);
            &&& forall|k: u32| #[trigger] written.contains_key(k) ==> exists|i: int|
                0 <= i < doc.objects@.len() && doc.objects@[i].0.0 == k && !machinery_type(
                    #[trigger] doc.objects@[i].1,
                )
            &&& whole.1 ==> forall|i: int|
                0 <= i < doc.objects@.len() && !machinery_type(#[trigger] doc.objects@[i].1)
                    ==> written.contains_key(doc.objects@[i].0.0)
        }),
{
    let o = opening(doc.version@, doc.binary_mark@);
    let body_start = start + o.0.len();
    lemma_plain_run_skips_machinery(doc.objects@, doc.trailer@, body_start, Map::empty());
    let (b, written, _k) = run(doc.objects@, doc.trailer@, false, body_start, Map::empty());
    let whole = full_save(doc, after, start).0;
    if whole.1 {
        assert(o.1 && b.1);
    }
}

impl Document {
    /// Writes the header line and the binary mark line. A mark with a byte below 128 is
    /// `InvalidData`.
    pub fn write_opening(&self, file: &mut Output) -> (r: Result<(), SaveError>)
        ensures
            wrote(*old(file), *final(file), opening(self.version@, self.binary_mark@), r is Ok),
            failed_as(r, *old(file), opening(self.version@, self.binary_mark@), ErrorKind::InvalidData),
    {
        let ghost f0 = *file;
        let ghost head = header_line(self.version@);
        let ghost mark = mark_piece(self.binary_mark@);
        let mut buf = text::header_prefix_bytes();
        push_all(&mut buf, self.version.as_str().as_bytes());
        buf.push(10u8);
        assert(buf@ =~= head);
        proof {
            lemma_extends_then(done(head), mark);
        }
        let r = file.put(buf.as_slice());
        if r.is_err() {
            proof {
                lemma_wrote_extend(f0, *file, done(head), opening(self.version@, self.binary_mark@));
                lemma_extends_len(opening(self.version@, self.binary_mark@), done(head));
            }
            return r;
        }
        let ghost f1 = *file;
        let r = Writer::write_binary_mark(file, self.binary_mark.as_slice());
        proof {
            if mark_is_binary(self.binary_mark@) {
                lemma_wrote_then(f0, f1, *file, done(head), mark, true, r is Ok);
            } else {
                assert(self.binary_mark@.len() >= 0);
                assert(wrote(f0, *file, opening(self.version@, self.binary_mark@), false)) by {
                    assert(head + Seq::<u8>::empty() =~= head);
                }
            }
        }
        r
    }

    /// Writes a classic table with the rebuilt free list, then the trailer with its `Size`.
    fn write_table_part(&mut self, file: &mut Output, xref: &mut Xref) -> (r: Result<
        (),
        SaveError,
    >)
        requires
            !has_compressed(old(xref).entries@),
            old(self).reference_table.cross_reference_type == XrefType::CrossReferenceTable,
            full_save_max(old(self).max_id, old(xref).entries@, old(self).reference_table.entries@)
                < u32::MAX,
        ensures
            wrote(
                *old(file),
                *final(file),
                xref_part(*old(self), *final(self), old(xref).entries@, old(file).count() as int).0,
                r is Ok,
            ),
            failed_as(
                r,
                *old(file),
                xref_part(*old(self), *final(self), old(xref).entries@, old(file).count() as int).0,
                ErrorKind::InvalidData,
            ),
            old(file).count() + xref_part(
                *old(self),
                *final(self),
                old(xref).entries@,
                old(file).count() as int,
            ).0.0.len() <= usize::MAX ==> xref_part_state(
                *old(self),
                *final(self),
                old(xref).entries@,
                old(file).count() as int,
            ),
            same_but_trailer(*old(self), *final(self)),
    {
        let ghost w = xref.entries@;
        let ghost table = self.reference_table.entries@;
        let ghost f0 = *file;
        self.normalize_full_save_xref(xref);
        proof {
            lemma_normalized_clean(w, table, full_save_max(self.max_id, w, table));
        }
        let r = Writer::write_xref(file, xref);
        let ghost tb = table_bytes(xref.entries@);
        if r.is_err() {
            proof {
                let whole = then(done(tb), trailer_piece(self.trailer.entries@));
                lemma_extends_then(done(tb), trailer_piece(self.trailer.entries@));
                lemma_wrote_extend(f0, *file, done(tb), whole);
                lemma_extends_len(whole, done(tb));
            }
            return r;
        }
        let ghost f1 = *file;
        let size = xref.size;
        let r = self.write_trailer(file, size);
        proof {
            let tp = trailer_piece(self.trailer.entries@);
            lemma_wrote_then(f0, f1, *file, done(tb), tp, true, r is Ok);
        }
        r
    }

    /// Writes a cross-reference stream that rebuilds the free list.
    fn write_stream_part(&mut self, file: &mut Output, xref: &mut Xref) -> (r: Result<
        (),
        SaveError,
    >)
        requires
            old(self).reference_table.cross_reference_type == XrefType::CrossReferenceStream,
            xref_part_fits(*old(self), old(xref).entries@, old(file).count() as int),
        ensures
            wrote(
                *old(file),
                *final(file),
                xref_part(*old(self), *final(self), old(xref).entries@, old(file).count() as int).0,
                r is Ok,
            ),
            failed_as(
                r,
                *old(file),
                xref_part(*old(self), *final(self), old(xref).entries@, old(file).count() as int).0,
                xref_part(*old(self), *final(self), old(xref).entries@, old(file).count() as int).1,
            ),
            old(file).count() + xref_part(
                *old(self),
                *final(self),
                old(xref).entries@,
                old(file).count() as int,
            ).0.0.len() <= usize::MAX ==> xref_part_state(
                *old(self),
                *final(self),
                old(xref).entries@,
                old(file).count() as int,
            ),
            same_but_trailer(*old(self), *final(self)),
    {
        let ghost w = xref.entries@;
        let ghost table = self.reference_table.entries@;
        let ghost f0 = *file;
        proof {
            if f0.count() <= u32::MAX {
                let id = (self.max_id + 1) as u32;
                let w1 = w.insert(id, XrefEntry::Normal { offset: f0.count() as u32, generation: 0 });
                lemma_normalized_clean(w1, table, full_save_max(id, w1, table));
            }
        }
        let r = self.write_cross_reference_stream(file, xref, true);
        proof {
            if f0.count() > u32::MAX {
                assert(wrote(f0, *file, (Seq::<u8>::empty(), false), false)) by {
                    assert(f0.sink()@ + Seq::<u8>::empty().take(0) =~= f0.sink()@);
                }
            }
        }
        r
    }

    /// Writes the cross-reference part of a full save whose objects were recorded in
    /// `xref`: a classic table with the rebuilt free list and the trailer, or a
    /// cross-reference stream.
    pub fn write_xref_part(&mut self, file: &mut Output, xref: &mut Xref) -> (r: Result<
        (),
        SaveError,
    >)
        requires
            old(self).reference_table.cross_reference_type == XrefType::CrossReferenceTable
                ==> !has_compressed(old(xref).entries@),
            old(xref).cross_reference_type == old(self).reference_table.cross_reference_type,
            xref_part_fits(*old(self), old(xref).entries@, old(file).count() as int),
        ensures
            wrote(
                *old(file),
                *final(file),
                xref_part(*old(self), *final(self), old(xref).entries@, old(file).count() as int).0,
                r is Ok,
            ),
            failed_as(
                r,
                *old(file),
                xref_part(*old(self), *final(self), old(xref).entries@, old(file).count() as int).0,
                xref_part(*old(self), *final(self), old(xref).entries@, old(file).count() as int).1,
            ),
            old(file).count() + xref_part(
                *old(self),
                *final(self),
                old(xref).entries@,
                old(file).count() as int,
            ).0.0.len() <= usize::MAX ==> xref_part_state(
                *old(self),
                *final(self),
                old(xref).entries@,
                old(file).count() as int,
            ),
            same_but_trailer(*old(self), *final(self)),
    {
        match xref.cross_reference_type {
            XrefType::CrossReferenceTable => self.write_table_part(file, xref),
            XrefType::CrossReferenceStream => self.write_stream_part(file, xref),
        }
    }

    /// Writes the end of a file: `startxref`, the position of the cross-reference data,
    /// `%%EOF`.
    pub fn write_footer(file: &mut Output, xref_start: usize) -> (r: Result<(), SaveError>)
        ensures
            wrote(*old(file), *final(file), done(footer(xref_start as nat)), r is Ok),
            r matches Err(e) ==> e is InvalidInput,
    {
        let mut buf = text::startxref_kw_bytes();
        push_dec(&mut buf, xref_start as u64);
        push_all(&mut buf, text::eof_marker_bytes().as_slice());
        assert(buf@ =~= footer(xref_start as nat));
        file.put(buf.as_slice())
    }

    /// Writes the whole document: the header and binary mark, every object but the
    /// cross-reference machinery a save generates anew, the cross-reference part, and the
    /// footer that points at the cross-reference part.
    pub fn save_internal(&mut self, target: &mut Output) -> (r: Result<(), SaveError>)
        requires
            old(self).max_id < u32::MAX,
            full_save_fits(*old(self), old(target).count() as int),
        ensures
            ({
                let (whole, kind, _written, _xref_start) = full_save(
                    *old(self),
                    *final(self),
                    old(target).count() as int,
                );
                &&& wrote(*old(target), *final(target), whole, r is Ok)
                &&& failed_as(r, *old(target), whole, kind)
                &&& old(target).count() + whole.0.len() <= usize::MAX ==> saved_state(
                    *old(self),
                    *final(self),
                    old(target).count() as int,
                )
            }),
            same_but_trailer(*old(self), *final(self)),
    {
        let ghost d0 = *self;
        let ghost f0 = *target;
        let mut xref = Xref::new(self.max_id + 1, self.reference_table.cross_reference_type);
        let ghost o = opening(self.version@, self.binary_mark@);
        let r = self.write_opening(target);
        let ghost f1 = *target;
        let ghost body_start = f0.count() + o.0.len();
        let ghost bw = run(d0.objects@, d0.trailer@, false, body_start, Map::empty());
        let ghost b = bw.0;
        let ghost xs = body_start + b.0.len();
        let ghost x = xref_part(d0, *self, bw.1, xs);
        let ghost whole = then(then(then(o, b), x.0), done(footer(xs as nat)));
        proof {
            lemma_extends_then(o, b);
            lemma_extends_then(then(o, b), x.0);
            lemma_extends_then(then(then(o, b), x.0), done(footer(xs as nat)));
            lemma_extends_trans(whole, then(then(o, b), x.0), then(o, b));
            lemma_extends_trans(whole, then(o, b), o);
            lemma_extends_len(whole, o);
        }
        if r.is_err() {
            proof {
                lemma_wrote_extend(f0, f1, o, whole);
            }
            return r;
        }
        assert(f1.count() == body_start);
        let r = self.write_objects(target, &mut xref, false);
        let ghost f2 = *target;
        if r.is_err() {
            proof {
                lemma_extends_refl(b);
                lemma_step_fail(f0, f1, f2, o, b, b, whole);
            }
            return r;
        }
        proof {
            lemma_wrote_then(f0, f1, f2, o, b, true, true);
            crate::body::lemma_run_entries(d0.objects@, d0.trailer@, false, body_start, Map::empty());
            assert(!has_compressed(xref.entries@));
        }
        let xref_start = target.bytes_written();
        assert(xref_start == xs);
        let r = self.write_xref_part(target, &mut xref);
        let ghost f3 = *target;
        let ghost x2 = xref_part(d0, *self, bw.1, xs);
        let ghost whole2 = then(then(then(o, b), x2.0), done(footer(xs as nat)));
        proof {
            lemma_extends_then(then(then(o, b), x2.0), done(footer(xs as nat)));
        }
        if r.is_err() {
            proof {
                lemma_extends_refl(x2.0);
                lemma_step_fail(f0, f2, f3, then(o, b), x2.0, x2.0, whole2);
            }
            return r;
        }
        proof {
            lemma_wrote_then(f0, f2, f3, then(o, b), x2.0, true, true);
        }
        let r = Document::write_footer(target, xref_start);
        proof {
            lemma_wrote_then(f0, f3, *target, then(then(o, b), x2.0), done(footer(xs as nat)), true, r is Ok);
        }
        r
    }

    /// Saves the document to the end of `target`: the header and binary mark, every object
    /// but the cross-reference machinery a save generates anew, the cross-reference part,
    /// and the footer that points at it.
    pub fn save_to(&mut self, target: &mut Vec<u8>) -> (r: Result<(), SaveError>)
        requires
            old(self).max_id < u32::MAX,
            full_save_fits(*old(self), 0),
        ensures
            ({
                let (whole, kind, _written, _xref_start) = full_save(*old(self), *final(self), 0);
                &&& appended(old(target)@, final(target)@, whole, r is Ok)
                &&& whole.0.len() <= usize::MAX ==> (r matches Err(e) ==> kind_of(e) == kind)
                &&& r matches Err(e) ==> e is InvalidData || e is InvalidInput
                &&& whole.0.len() <= usize::MAX ==> saved_state(*old(self), *final(self), 0)
            }),
            same_but_trailer(*old(self), *final(self)),
    {
        let mut taken: Vec<u8> = Vec::new();
        std::mem::swap(&mut taken, target);
        let mut out = CountingWrite::new(taken, 0);
        let ghost f0 = out;
        let r = self.save_internal(&mut out);
        proof {
            let (whole, kind, _w, _x) = full_save(*old(self), *self, 0);
            lemma_appended(f0, out, whole, r is Ok);
        }
        *target = out.into_inner();
        r
    }
}

} // verus!
