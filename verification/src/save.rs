use vstd::prelude::*;

use crate::document::Document;
use crate::error::SaveError;
use crate::free_list::{full_save_max, normalized};
use crate::number::{dec, push_dec};
use crate::object::{remove_pairs, set_pairs, DictView, Dictionary, Object, Stream};
use crate::sink::{
    done, lemma_extends_refl, lemma_extends_then, lemma_step_fail, lemma_wrote_extend,
    lemma_wrote_then, then, wrote, Output, Piece,
};
use crate::syntax::{dict_piece, object_piece};
use crate::table::{index_items, stream_records, stream_sections};
use crate::text;
use crate::writer::{indirect_piece, value_error, Writer, XRefStreamFilter};
use crate::xref::{has_null, Xref, XrefEntry};

verus! {

/// Whether `o` is the name `n`.
pub open spec fn is_name(o: Object, n: Seq<u8>) -> bool {
    o matches Object::Name(v) && v@ == n
}

/// Whether `o` is an array of `items`.
pub open spec fn is_array(o: Object, items: Seq<Object>) -> bool {
    o matches Object::Array(v) && v@ == items
}

/// The widths of the fields of a cross-reference stream record: 1, 4 and 2 bytes.
pub open spec fn record_widths() -> Seq<Object> {
    seq![Object::Integer(1), Object::Integer(4), Object::Integer(2)]
}

/// The trailer once `Type`, `Size` and `W` are set for a cross-reference stream.
pub open spec fn xref_trailer_head(old: DictView, new: DictView, size: u32) -> bool {
    exists|ty: Object, w: Object|
        #![trigger is_name(ty, text::name_xref()), is_array(w, record_widths())]
        is_name(ty, text::name_xref()) && is_array(w, record_widths()) && new == set_pairs(
            set_pairs(set_pairs(old, text::key_type(), ty), text::key_size(), Object::Integer(size as i64)),
            text::key_w(),
            w,
        )
}

/// The trailer of a cross-reference stream: `Type` `XRef`, `Size`, `W` `[1 4 2]`, the
/// `Index` of its sections, no `Filter`, and the `Length` of its data.
pub open spec fn xref_trailer(
    old: DictView,
    new: DictView,
    size: u32,
    index: Seq<Object>,
    length: nat,
) -> bool {
    exists|head: DictView, idx: Object|
        #![trigger xref_trailer_head(old, head, size), is_array(idx, index)]
        xref_trailer_head(old, head, size) && is_array(idx, index) && new == set_pairs(
            remove_pairs(set_pairs(head, text::key_index(), idx), text::key_filter()),
            text::key_length(),
            Object::Integer(length as i64),
        )
}

/// The header line of a stream object with generation 0.
pub open spec fn stream_header(id: u32) -> Seq<u8> {
    dec(id as nat) + text::space() + dec(0) + text::obj_suffix()
}

/// An indirect stream object with generation 0: its dictionary and its data.
pub open spec fn stream_object_piece(id: u32, dict: Seq<(Vec<u8>, Object)>, content: Seq<u8>) -> Piece {
    then(
        then(
            done(stream_header(id)),
            then(dict_piece(dict), done(text::stream_start() + content + text::stream_end())),
        ),
        done(text::space() + text::endobj()),
    )
}

/// The entries a cross-reference stream describes: `written` with the stream itself at
/// `position`, and, for a full save, the free list rebuilt up to the highest number.
pub open spec fn stream_entries(
    written: Map<u32, XrefEntry>,
    table: Map<u32, XrefEntry>,
    id: u32,
    position: u32,
    full_save: bool,
) -> Map<u32, XrefEntry> {
    let with_self = written.insert(id, XrefEntry::Normal { offset: position, generation: 0 });
    if full_save {
        normalized(with_self, table, full_save_max(id, with_self, table))
    } else {
        with_self
    }
}

/// The `Size` a cross-reference stream declares.
pub open spec fn stream_size(
    written: Map<u32, XrefEntry>,
    table: Map<u32, XrefEntry>,
    id: u32,
    position: u32,
    full_save: bool,
) -> u32 {
    let with_self = written.insert(id, XrefEntry::Normal { offset: position, generation: 0 });
    if full_save {
        (full_save_max(id, with_self, table) + 1) as u32
    } else {
        (id + 1) as u32
    }
}

/// A trailer: `trailer` on a line of its own, then the dictionary.
pub open spec fn trailer_piece(dict: Seq<(Vec<u8>, Object)>) -> Piece {
    then(done(text::trailer_kw()), dict_piece(dict))
}

/// The document is left as it was, but for its trailer and its highest object number.
pub open spec fn same_but_trailer(a: Document, b: Document) -> bool {
    &&& a.version == b.version
    &&& a.binary_mark == b.binary_mark
    &&& a.reference_table == b.reference_table
    &&& a.objects == b.objects
    &&& a.encryption_state == b.encryption_state
}

impl Document {
    /// Writes the trailer with its `Size` set to `size`.
    pub fn write_trailer(&mut self, file: &mut Output, size: u32) -> (r: Result<(), SaveError>)
        ensures
            final(self).trailer@ == set_pairs(
                old(self).trailer@,
                text::key_size(),
                Object::Integer(size as i64),
            ),
            same_but_trailer(*old(self), *final(self)),
            final(self).max_id == old(self).max_id,
            wrote(*old(file), *final(file), trailer_piece(final(self).trailer.entries@), r is Ok),
            value_error(r, *old(file), trailer_piece(final(self).trailer.entries@)),
    {
        self.trailer.set(text::key_size_bytes(), Object::Integer(size as i64));
        let ghost f0 = *file;
        let ghost whole = trailer_piece(self.trailer.entries@);
        proof {
            lemma_extends_then(done(text::trailer_kw()), dict_piece(self.trailer.entries@));
        }
        let r = file.put(text::trailer_kw_bytes().as_slice());
        if r.is_err() {
            proof {
                lemma_wrote_extend(f0, *file, done(text::trailer_kw()), whole);
            }
            return r;
        }
        let ghost f1 = *file;
        let r = Writer::write_dictionary(file, &self.trailer);
        proof {
            lemma_wrote_then(f0, f1, *file, done(text::trailer_kw()), dict_piece(self.trailer.entries@), true, r is Ok);
            if r.is_err() {
                lemma_extends_refl(whole);
                lemma_extends_refl(dict_piece(self.trailer.entries@));
                lemma_step_fail(f0, f1, *file, done(text::trailer_kw()), dict_piece(self.trailer.entries@), dict_piece(self.trailer.entries@), whole);
            }
        }
        r
    }
}

/// Sets `Type` `XRef`, `Size` and `W` `[1 4 2]` in a trailer.
fn set_xref_trailer_head(trailer: &mut Dictionary, size: u32)
    ensures
        xref_trailer_head(old(trailer)@, final(trailer)@, size),
{
    let ghost t0 = trailer@;
    let ty = Object::Name(text::name_xref_bytes());
    let ghost ty_v = ty;
    trailer.set(text::key_type_bytes(), ty);
    trailer.set(text::key_size_bytes(), Object::Integer(size as i64));
    let widths = vec![Object::Integer(1), Object::Integer(4), Object::Integer(2)];
    assert(widths@ =~= record_widths());
    let w = Object::Array(widths);
    let ghost w_v = w;
    trailer.set(text::key_w_bytes(), w);
    assert(is_name(ty_v, text::name_xref()));
    assert(is_array(w_v, record_widths()));
}

/// Sets `Index`, the `Filter` that `filter` calls for, and `Length` in a trailer.
fn set_xref_trailer_tail(
    trailer: &mut Dictionary,
    indexes: Object,
    filter: XRefStreamFilter,
    length: usize,
)
    requires
        filter == XRefStreamFilter::NoFilter,
    ensures
        final(trailer)@ == set_pairs(
            remove_pairs(set_pairs(old(trailer)@, text::key_index(), indexes), text::key_filter()),
            text::key_length(),
            Object::Integer(length as i64),
        ),
{
    trailer.set(text::key_index_bytes(), indexes);
    if filter == XRefStreamFilter::ASCIIHexDecode {
        trailer.set(text::key_filter_bytes(), Object::Name(text::name_ascii_hex_bytes()));
    } else {
        trailer.remove(text::key_filter_bytes().as_slice());
    }
    trailer.set(text::key_length_bytes(), Object::Integer(length as i64));
}

/// Writes a stream object with generation 0 whose dictionary is `dict` and whose data is
/// `data`, at the current position, recording it in `xref`; `dict` is left as it was.
fn write_dictionary_stream(
    file: &mut Output,
    id: u32,
    dict: &mut Dictionary,
    data: Vec<u8>,
    xref: &mut Xref,
) -> (r: Result<(), SaveError>)
    requires
        old(file).count() <= u32::MAX,
    ensures
        *final(dict) == *old(dict),
        final(xref).entries@ == old(xref).entries@.insert(
            id,
            XrefEntry::Normal { offset: old(file).count() as u32, generation: 0 },
        ),
        final(xref).size == old(xref).size,
        final(xref).cross_reference_type == old(xref).cross_reference_type,
        wrote(*old(file), *final(file), stream_object_piece(id, old(dict).entries@, data@), r is Ok),
        value_error(r, *old(file), stream_object_piece(id, old(dict).entries@, data@)),
{
    let ghost content = data@;
    let mut taken = Dictionary::new();
    std::mem::swap(&mut taken, dict);
    let obj = Object::Stream(
        Stream { dict: taken, content: data, allows_compression: true, start_position: None },
    );
    let r = Writer::write_indirect_object(file, id, 0, &obj, xref);
    proof {
        assert(indirect_piece(id, 0, obj) == stream_object_piece(
            id,
            obj->Stream_0.dict.entries@,
            content,
        )) by {
            assert(crate::writer::indirect_header(id, 0, obj) =~= stream_header(id));
        }
    }
    match obj {
        Object::Stream(s) => {
            *dict = s.dict;
        },
        _ => {},
    }
    r
}

impl Document {
    /// Writes a cross-reference stream as a new object, numbered one past the highest
    /// object number, at the current position. The stream's own entry joins `xref`; a
    /// full save then rebuilds the free list. The trailer gets `Type` `XRef`, `Size`,
    /// `W` `[1 4 2]`, the `Index` of the sections and the `Length` of the data, and serves
    /// as the stream's dictionary. A position past `u32::MAX` is `InvalidInput` before
    /// anything changes; a `Null` entry is `Unsupported` before any byte is written.
    pub fn write_cross_reference_stream(
        &mut self,
        file: &mut Output,
        xref: &mut Xref,
        full_save: bool,
    ) -> (r: Result<(), SaveError>)
        requires
            old(file).count() <= u32::MAX ==> old(self).max_id < u32::MAX,
            old(file).count() <= u32::MAX && !full_save ==> old(self).max_id + 2 <= u32::MAX,
            old(file).count() <= u32::MAX && full_save ==> full_save_max(
                (old(self).max_id + 1) as u32,
                old(xref).entries@.insert(
                    (old(self).max_id + 1) as u32,
                    XrefEntry::Normal { offset: old(file).count() as u32, generation: 0 },
                ),
                old(self).reference_table.entries@,
            ) < u32::MAX,
        ensures
            old(file).count() > u32::MAX ==> (r matches Err(e) && e is InvalidInput),
            old(file).count() > u32::MAX ==> *final(file) == *old(file) && *final(xref) == *old(
                xref,
            ) && *final(self) == *old(self),
            old(file).count() <= u32::MAX ==> ({
                let id = (old(self).max_id + 1) as u32;
                let pos = old(file).count() as u32;
                let table = old(self).reference_table.entries@;
                let entries = stream_entries(old(xref).entries@, table, id, pos, full_save);
                let size = stream_size(old(xref).entries@, table, id, pos, full_save);
                let raw = stream_records(stream_sections(entries));
                let piece = stream_object_piece(id, final(self).trailer.entries@, raw);
                &&& final(self).max_id == id
                &&& same_but_trailer(*old(self), *final(self))
                &&& final(xref).entries@ == entries
                &&& final(xref).cross_reference_type == old(xref).cross_reference_type
                &&& final(xref).size == if full_save {
                    size
                } else {
                    old(xref).size
                }
                &&& has_null(entries) ==> (r matches Err(e) && e is Unsupported)
                &&& has_null(entries) ==> *final(file) == *old(file)
                &&& has_null(entries) ==> xref_trailer_head(
                    old(self).trailer@,
                    final(self).trailer@,
                    size,
                )
                &&& !has_null(entries) ==> xref_trailer(
                    old(self).trailer@,
                    final(self).trailer@,
                    size,
                    index_items(stream_sections(entries)),
                    raw.len(),
                )
                &&& !has_null(entries) ==> wrote(*old(file), *final(file), piece, r is Ok)
                &&& !has_null(entries) ==> value_error(r, *old(file), piece)
            }),
    {
        let xref_start = match file.checked_position_u32() {
            Ok(p) => p,
            Err(e) => return Err(e),
        };
        let ghost table = self.reference_table.entries@;
        let ghost w0 = xref.entries@;
        let ghost t0 = self.trailer@;
        self.max_id = self.max_id + 1;
        let id = self.max_id;
        xref.insert(id, XrefEntry::Normal { offset: xref_start, generation: 0 });
        if full_save {
            self.normalize_full_save_xref(xref);
        }
        let ghost entries = xref.entries@;
        assert(entries == stream_entries(w0, table, id, xref_start, full_save));
        let size: u32 = if full_save {
            xref.size
        } else {
            self.max_id + 1
        };
        set_xref_trailer_head(&mut self.trailer, size);
        let filter = XRefStreamFilter::NoFilter;
        let (data, length, indexes) = match Writer::create_xref_steam(xref, filter) {
            Ok(t) => t,
            Err(e) => return Err(e),
        };
        let ghost head = self.trailer@;
        let ghost idx_v = indexes;
        set_xref_trailer_tail(&mut self.trailer, indexes, filter, length);
        proof {
            assert(is_array(idx_v, index_items(stream_sections(entries))));
            assert(xref_trailer_head(t0, head, size));
        }
        proof {
            if full_save {
                let w1 = w0.insert(id, XrefEntry::Normal { offset: xref_start, generation: 0 });
                crate::free_list::lemma_full_save_max(id, w1, table);
                crate::free_list::lemma_free_generations(w1, table, full_save_max(id, w1, table), id);
            }
            assert(entries.contains_key(id) && entries[id] == XrefEntry::Normal { offset: xref_start, generation: 0 });
        }
        let r = write_dictionary_stream(file, id, &mut self.trailer, data, xref);
        proof {
            assert(xref.entries@ =~= entries);
        }
        r
    }
}

} // verus!
