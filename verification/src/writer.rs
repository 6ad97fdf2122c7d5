use vstd::prelude::*;

use crate::decimal::expand_scientific_real;
use crate::error::SaveError;
use crate::number::{dec, hex2, push_dec, push_hex2, push_int};
use crate::object::{Dictionary, Object, RealNumber, Stream, StringFormat};
use crate::sink::{
    done, extends, lemma_extends_cong, lemma_extends_refl, lemma_extends_then, lemma_extends_trans,
    lemma_step_fail, lemma_then_assoc, lemma_then_empty, lemma_wrote_extend, lemma_wrote_nothing,
    lemma_wrote_then, then, wrote, CountingWrite, Output, Piece,
};
use crate::syntax::{
    dict_piece, entries_piece, hex_body, items_piece, literal_body, literal_escapes, name_body,
    name_bytes, name_escaped, need_end_separator, need_separator, object_piece, paren_scan,
    real_piece, reference_bytes, string_bytes,
};
use crate::table::{
    collect_sections, entry_records, index_items, lemma_all_sections_fit, section_view,
    sections_fit, sections_text, sections_view, stream_records, stream_sections, table_bytes,
    table_sections, SectionView,
};
use crate::text;
use crate::xref::{has_compressed, has_null, max_id_of, Xref, XrefEntry, XrefSection};
use crate::error::null_serialization_error;

verus! {

/// Serializes PDF objects and cross-reference data.
pub struct Writer;

/// The encoding of the data of a cross-reference stream.
#[derive(Debug, PartialEq, Eq, Clone, Copy, Structural)]
pub enum XRefStreamFilter {
    ASCIIHexDecode,
    _FlateDecode,
    NoFilter,
}

/// The data of a cross-reference stream under `filter`: the records themselves, or two
/// uppercase hexadecimal digits per byte for `ASCIIHexDecode`.
pub open spec fn filtered(raw: Seq<u8>, filter: XRefStreamFilter) -> Seq<u8> {
    if filter == XRefStreamFilter::ASCIIHexDecode {
        hex_body(raw)
    } else {
        raw
    }
}

/// The line that opens an indirect object: its number, its generation and `obj`.
pub open spec fn object_header(id: u32, generation: u16) -> Seq<u8> {
    dec(id as nat) + text::space() + dec(generation as nat) + text::obj_suffix()
}

/// The first line of an indirect object: its number, its generation and `obj`, then a
/// space when the value needs one.
pub open spec fn indirect_header(id: u32, generation: u16, o: Object) -> Seq<u8> {
    object_header(id, generation) + if need_separator(
        o,
    ) {
        text::space()
    } else {
        Seq::empty()
    }
}

/// The end of an indirect object: a space when the value needs one, then `endobj` on a line
/// of its own.
pub open spec fn indirect_footer(o: Object) -> Seq<u8> {
    (if need_end_separator(o) {
        text::space()
    } else {
        Seq::empty()
    }) + text::endobj()
}

/// An indirect object: header, value, footer.
pub open spec fn indirect_piece(id: u32, generation: u16, o: Object) -> Piece {
    then(then(done(indirect_header(id, generation, o)), object_piece(o)), done(indirect_footer(o)))
}

/// The binary mark line: `%`, the mark, a line feed.
pub open spec fn mark_line(mark: Seq<u8>) -> Seq<u8> {
    text::percent() + mark + text::newline()
}

/// Every byte of the mark is at least 128, so that readers see a binary file.
pub open spec fn mark_is_binary(mark: Seq<u8>) -> bool {
    forall|i: int| 0 <= i < mark.len() ==> mark[i] >= 128
}

/// The errors a value can produce while it is written: a value with no PDF form, or a
/// count past `usize::MAX`; only the latter when the whole output fits the counter.
pub open spec fn value_error(r: Result<(), SaveError>, before: Output, piece: Piece) -> bool {
    r matches Err(e) ==> (e is InvalidData || e is InvalidInput) && (before.count() + piece.0.len()
        <= usize::MAX ==> e is InvalidData)
}

pub proof fn lemma_items_step(items: Seq<Object>, k: int)
    requires
        0 <= k < items.len(),
    ensures
        items_piece(items.take(k + 1)) == then(
            items_piece(items.take(k)),
            then(
                done(
                    if k > 0 && need_separator(items[k]) {
                        text::space()
                    } else {
                        Seq::empty()
                    },
                ),
                object_piece(items[k]),
            ),
        ),
{
    assert(items.take(k + 1).drop_last() =~= items.take(k));
}

pub proof fn lemma_items_extends(items: Seq<Object>, k: int)
    requires
        0 <= k <= items.len(),
    ensures
        extends(items_piece(items), items_piece(items.take(k))),
    decreases items.len() - k,
{
    if k == items.len() {
        assert(items.take(k) =~= items);
        lemma_extends_refl(items_piece(items));
    } else {
        lemma_items_step(items, k);
        lemma_extends_then(
            items_piece(items.take(k)),
            then(
                done(
                    if k > 0 && need_separator(items[k]) {
                        text::space()
                    } else {
                        Seq::empty()
                    },
                ),
                object_piece(items[k]),
            ),
        );
        lemma_items_extends(items, k + 1);
        lemma_extends_trans(items_piece(items), items_piece(items.take(k + 1)), items_piece(items.take(k)));
    }
}

pub proof fn lemma_entries_step(entries: Seq<(Vec<u8>, Object)>, k: int)
    requires
        0 <= k < entries.len(),
    ensures
        entries_piece(entries.take(k + 1)) == then(
            entries_piece(entries.take(k)),
            then(
                done(
                    name_bytes(entries[k].0@) + if need_separator(entries[k].1) {
                        text::space()
                    } else {
                        Seq::empty()
                    },
                ),
                object_piece(entries[k].1),
            ),
        ),
{
    assert(entries.take(k + 1).drop_last() =~= entries.take(k));
}

pub proof fn lemma_entries_extends(entries: Seq<(Vec<u8>, Object)>, k: int)
    requires
        0 <= k <= entries.len(),
    ensures
        extends(entries_piece(entries), entries_piece(entries.take(k))),
    decreases entries.len() - k,
{
    if k == entries.len() {
        assert(entries.take(k) =~= entries);
        lemma_extends_refl(entries_piece(entries));
    } else {
        lemma_entries_step(entries, k);
        lemma_extends_then(
            entries_piece(entries.take(k)),
            then(
                done(
                    name_bytes(entries[k].0@) + if need_separator(entries[k].1) {
                        text::space()
                    } else {
                        Seq::empty()
                    },
                ),
                object_piece(entries[k].1),
            ),
        );
        lemma_entries_extends(entries, k + 1);
        lemma_extends_trans(
            entries_piece(entries),
            entries_piece(entries.take(k + 1)),
            entries_piece(entries.take(k)),
        );
    }
}

/// A container `open + body + close` continues `open + partial` when the body continues the partial body.
pub proof fn lemma_container_extends(open: Seq<u8>, body: Piece, partial: Piece, close: Seq<u8>)
    requires
        extends(body, partial),
    ensures
        extends(then(then(done(open), body), done(close)), then(done(open), partial)),
{
    lemma_extends_cong(done(open), body, partial);
    lemma_extends_then(then(done(open), body), done(close));
    lemma_extends_trans(
        then(then(done(open), body), done(close)),
        then(done(open), body),
        then(done(open), partial),
    );
}

/// Whether a byte of a name is written as `#` and two hexadecimal digits.
fn name_byte_escaped(b: u8) -> (r: bool)
    ensures
        r == name_escaped(b),
{
    b < 33 || b > 126 || b == 40 || b == 41 || b == 60 || b == 62 || b == 91 || b == 93 || b == 123
        || b == 125 || b == 47 || b == 37 || b == 35
}

/// Which bytes of a literal string get a backslash.
fn literal_escape_flags(t: &[u8]) -> (flags: Vec<bool>)
    ensures
        flags@ == literal_escapes(t@),
{
    let mut marks: Vec<bool> = Vec::new();
    let mut open: Vec<usize> = Vec::new();
    let mut i: usize = 0;
    while i < t.len()
        invariant
            i <= t@.len(),
            paren_scan(t@.take(i as int)) == (marks@, open@.map_values(|x: usize| x as int)),
            marks@.len() == i,
            forall|j: int| 0 <= j < open@.len() ==> open@[j] < i,
        decreases t@.len() - i,
    {
        let b = t[i];
        let ghost before = (marks@, open@.map_values(|x: usize| x as int));
        assert(t@.take(i + 1).drop_last() =~= t@.take(i as int));
        if b == 40 {
            marks.push(false);
            open.push(i);
            assert(open@.map_values(|x: usize| x as int) =~= before.1.push(i as int));
        } else if b == 41 {
            if open.len() > 0 {
                marks.push(false);
                open.pop();
                assert(open@.map_values(|x: usize| x as int) =~= before.1.drop_last());
            } else {
                marks.push(true);
            }
        } else if b == 92 || b == 13 {
            marks.push(true);
        } else {
            marks.push(false);
        }
        i = i + 1;
    }
    assert(t@.take(i as int) =~= t@);
    let ghost scan = paren_scan(t@);
    let ghost opened = open@.map_values(|x: usize| x as int);
    let mut j: usize = 0;
    while j < open.len()
        invariant
            j <= open@.len(),
            opened == open@.map_values(|x: usize| x as int),
            scan == paren_scan(t@),
            scan.1 == opened,
            marks@.len() == t@.len(),
            forall|j2: int| 0 <= j2 < open@.len() ==> open@[j2] < t@.len(),
            forall|k: int|
                0 <= k < t@.len() ==> marks@[k] == (scan.0[k] || opened.take(j as int).contains(k)),
        decreases open@.len() - j,
    {
        let at = open[j];
        marks.set(at, true);
        let ghost s0 = opened.take(j as int);
        let ghost s1 = opened.take(j + 1);
        assert(s1 =~= s0.push(at as int));
        assert forall|k: int| 0 <= k < t@.len() implies marks@[k] == (scan.0[k] || s1.contains(k)) by {
            if s1.contains(k) {
                let w = choose|w: int| 0 <= w < s1.len() && #[trigger] s1[w] == k;
                if w < s0.len() {
                    assert(s0[w] == k);
                }
            }
            if s0.contains(k) {
                let w = choose|w: int| 0 <= w < s0.len() && #[trigger] s0[w] == k;
                assert(s1[w] == k);
            }
            if k == at {
                assert(s1[j as int] == k);
            }
        }
        j = j + 1;
    }
    assert(opened.take(open@.len() as int) =~= opened);
    assert(marks@ =~= literal_escapes(t@));
    marks
}

impl Writer {
    /// Whether a value written after another token must be separated from it by a space.
    pub fn need_separator(object: &Object) -> (r: bool)
        ensures
            r == need_separator(*object),
    {
        match object {
            Object::Null | Object::Boolean(_) | Object::Integer(_) | Object::Real(_)
            | Object::Reference(_) => true,
            _ => false,
        }
    }

    /// Whether a value must be followed by a space before `endobj`.
    pub fn need_end_separator(object: &Object) -> (r: bool)
        ensures
            r == need_end_separator(*object),
    {
        match object {
            Object::Null | Object::Boolean(_) | Object::Integer(_) | Object::Real(_)
            | Object::Name(_) | Object::Reference(_) | Object::Stream(_) => true,
            _ => false,
        }
    }

    /// Writes a name: a solidus, then each byte, with white space, delimiters, `#` and
    /// bytes outside `!`..=`~` written as `#` and two uppercase hexadecimal digits.
    pub fn write_name(file: &mut Output, name: &[u8]) -> (r: Result<(), SaveError>)
        ensures
            wrote(*old(file), *final(file), done(name_bytes(name@)), r is Ok),
            r matches Err(e) ==> e is InvalidInput,
    {
        let mut buf = text::slash_bytes();
        let mut i: usize = 0;
        while i < name.len()
            invariant
                i <= name@.len(),
                buf@ == text::slash() + name_body(name@.take(i as int)),
            decreases name@.len() - i,
        {
            let b = name[i];
            assert(name@.take(i + 1).drop_last() =~= name@.take(i as int));
            if name_byte_escaped(b) {
                buf.push(35u8);
                push_hex2(&mut buf, b);
            } else {
                buf.push(b);
            }
            i = i + 1;
            assert(buf@ =~= text::slash() + name_body(name@.take(i as int)));
        }
        assert(name@.take(i as int) =~= name@);
        file.put(buf.as_slice())
    }

    /// Writes a string. A literal string escapes backslashes, carriage returns (as `\r`)
    /// and every parenthesis that has no partner; a hexadecimal string writes two
    /// uppercase digits per byte.
    pub fn write_string(file: &mut Output, t: &[u8], format: StringFormat) -> (r: Result<
        (),
        SaveError,
    >)
        ensures
            wrote(*old(file), *final(file), done(string_bytes(t@, format)), r is Ok),
            r matches Err(e) ==> e is InvalidInput,
    {
        match format {
            StringFormat::Literal => {
                let flags = literal_escape_flags(t);
                let mut buf = text::open_paren_bytes();
                let mut i: usize = 0;
                while i < t.len()
                    invariant
                        i <= t@.len(),
                        flags@ == literal_escapes(t@),
                        buf@ == text::open_paren() + literal_body(
                            t@.take(i as int),
                            flags@.take(i as int),
                        ),
                    decreases t@.len() - i,
                {
                    let b = t[i];
                    assert(t@.take(i + 1).drop_last() =~= t@.take(i as int));
                    assert(flags@.take(i + 1).drop_last() =~= flags@.take(i as int));
                    if flags[i] {
                        buf.push(92u8);
                        buf.push(if b == 13 { 114u8 } else { b });
                    } else {
                        buf.push(b);
                    }
                    i = i + 1;
                    assert(buf@ =~= text::open_paren() + literal_body(
                        t@.take(i as int),
                        flags@.take(i as int),
                    ));
                }
                assert(t@.take(i as int) =~= t@);
                assert(flags@.take(i as int) =~= flags@);
                buf.push(41u8);
                assert(buf@ =~= string_bytes(t@, format));
                file.put(buf.as_slice())
            },
            StringFormat::Hexadecimal => {
                let mut buf = text::open_hex_bytes();
                let mut i: usize = 0;
                while i < t.len()
                    invariant
                        i <= t@.len(),
                        buf@ == text::open_hex() + hex_body(t@.take(i as int)),
                    decreases t@.len() - i,
                {
                    assert(t@.take(i + 1).drop_last() =~= t@.take(i as int));
                    push_hex2(&mut buf, t[i]);
                    i = i + 1;
                    assert(buf@ =~= text::open_hex() + hex_body(t@.take(i as int)));
                }
                assert(t@.take(i as int) =~= t@);
                buf.push(62u8);
                assert(buf@ =~= string_bytes(t@, format));
                file.put(buf.as_slice())
            },
        }
    }

    /// Writes a real number in plain decimal notation with a decimal point. A value that
    /// is not finite has no PDF form: nothing is written and the result is `InvalidData`.
    pub fn write_real(file: &mut Output, value: &RealNumber) -> (r: Result<(), SaveError>)
        ensures
            wrote(*old(file), *final(file), real_piece(*value), r is Ok),
            value_error(r, *old(file), real_piece(*value)),
            value.text() is Some <==> real_piece(*value).1,
    {
        let ghost f0 = *file;
        match value.scientific() {
            Some(t) => match expand_scientific_real(t.as_slice()) {
                Some(token) => file.put(token.as_slice()),
                None => {
                    assert(f0.sink()@ =~= f0.sink()@ + Seq::<u8>::empty().take(0));
                    Err(SaveError::InvalidData("cannot write a non-finite Real as a PDF number"))
                },
            },
            None => {
                assert(f0.sink()@ =~= f0.sink()@ + Seq::<u8>::empty().take(0));
                Err(SaveError::InvalidData("cannot write a non-finite Real as a PDF number"))
            },
        }
    }

    /// Writes an object in PDF syntax.
    pub fn emit_object(file: &mut Output, object: &Object) -> (r: Result<(), SaveError>)
        ensures
            wrote(*old(file), *final(file), object_piece(*object), r is Ok),
            value_error(r, *old(file), object_piece(*object)),
        decreases object, 0int,
    {
        match object {
            Object::Null => file.put(text::kw_null_bytes().as_slice()),
            Object::Boolean(v) => {
                if *v {
                    file.put(text::kw_true_bytes().as_slice())
                } else {
                    file.put(text::kw_false_bytes().as_slice())
                }
            },
            Object::Integer(v) => {
                let mut buf: Vec<u8> = Vec::new();
                push_int(&mut buf, *v);
                file.put(buf.as_slice())
            },
            Object::Real(v) => Writer::write_real(file, v),
            Object::Name(n) => Writer::write_name(file, n.as_slice()),
            Object::String(t, f) => Writer::write_string(file, t.as_slice(), *f),
            Object::Array(items) => Writer::write_array(file, items),
            Object::Dictionary(d) => Writer::write_dictionary(file, d),
            Object::Stream(s) => Writer::write_stream(file, s),
            Object::Reference(id) => {
                let mut buf: Vec<u8> = Vec::new();
                push_dec(&mut buf, id.0 as u64);
                buf.push(32u8);
                push_dec(&mut buf, id.1 as u64);
                buf.push(32u8);
                buf.push(82u8);
                assert(buf@ =~= reference_bytes(*id));
                file.put(buf.as_slice())
            },
        }
    }

    /// Writes an array: its elements between brackets, a space before each element after
    /// the first that needs one.
    pub fn write_array(file: &mut Output, items: &Vec<Object>) -> (r: Result<(), SaveError>)
        ensures
            wrote(*old(file), *final(file), object_piece(Object::Array(*items)), r is Ok),
            value_error(r, *old(file), object_piece(Object::Array(*items))),
        decreases items, 1int,
    {
        let ghost f0 = *file;
        let ghost whole = object_piece(Object::Array(*items));
        proof {
            lemma_items_extends(items@, 0);
            assert(items@.take(0) =~= Seq::<Object>::empty());
            lemma_container_extends(text::open_array(), items_piece(items@), items_piece(items@.take(0)), text::close_array());
            lemma_then_empty(done(text::open_array()));
        }
        let r = file.put(text::open_array_bytes().as_slice());
        if r.is_err() {
            proof {
                lemma_wrote_extend(f0, *file, done(text::open_array()), whole);
            }
            return r;
        }
        let mut i: usize = 0;
        while i < items.len()
            invariant
                i <= items@.len(),
                whole == object_piece(Object::Array(*items)),
                f0 == *old(file),
                wrote(f0, *file, then(done(text::open_array()), items_piece(items@.take(i as int))), true),
            decreases items@.len() - i,
        {
            let ghost fi = *file;
            let ghost before = then(done(text::open_array()), items_piece(items@.take(i as int)));
            let ghost sep = if i > 0 && need_separator(items@[i as int]) {
                text::space()
            } else {
                Seq::<u8>::empty()
            };
            let ghost step = then(done(sep), object_piece(items@[i as int]));
            proof {
                lemma_items_step(items@, i as int);
                lemma_then_assoc(done(text::open_array()), items_piece(items@.take(i as int)), step);
                lemma_items_extends(items@, i + 1);
                lemma_container_extends(text::open_array(), items_piece(items@), items_piece(items@.take(i + 1)), text::close_array());
            }
            if i > 0 && Writer::need_separator(&items[i]) {
                let r = file.put(text::space_bytes().as_slice());
                if r.is_err() {
                    proof {
                        lemma_extends_then(done(sep), object_piece(items@[i as int]));
                        lemma_step_fail(f0, fi, *file, before, done(sep), step, whole);
                    }
                    return r;
                }
            } else {
                proof {
                    lemma_wrote_nothing(fi);
                }
            }
            let ghost fs = *file;
            let r = Writer::emit_object(file, &items[i]);
            proof {
                lemma_wrote_then(fi, fs, *file, done(sep), object_piece(items@[i as int]), true, r is Ok);
            }
            if r.is_err() {
                proof {
                    lemma_extends_refl(step);
                    lemma_step_fail(f0, fi, *file, before, step, step, whole);
                }
                return r;
            }
            proof {
                lemma_wrote_then(f0, fi, *file, before, step, true, true);
            }
            i = i + 1;
        }
        assert(items@.take(i as int) =~= items@);
        let ghost fl = *file;
        let r = file.put(text::close_array_bytes().as_slice());
        proof {
            lemma_wrote_then(
                f0,
                fl,
                *file,
                then(done(text::open_array()), items_piece(items@)),
                done(text::close_array()),
                true,
                r is Ok,
            );
        }
        r
    }

    /// Writes a dictionary: each key as a name, a space where the value needs one, then the
    /// value, all between `<<` and `>>`.
    pub fn write_dictionary(file: &mut Output, dictionary: &Dictionary) -> (r: Result<(), SaveError>)
        ensures
            wrote(*old(file), *final(file), dict_piece(dictionary.entries@), r is Ok),
            value_error(r, *old(file), dict_piece(dictionary.entries@)),
        decreases dictionary, 1int,
    {
        let entries = &dictionary.entries;
        let ghost f0 = *file;
        let ghost whole = dict_piece(entries@);
        proof {
            lemma_entries_extends(entries@, 0);
            assert(entries@.take(0) =~= Seq::<(Vec<u8>, Object)>::empty());
            lemma_container_extends(text::open_dict(), entries_piece(entries@), entries_piece(entries@.take(0)), text::close_dict());
            lemma_then_empty(done(text::open_dict()));
        }
        let r = file.put(text::open_dict_bytes().as_slice());
        if r.is_err() {
            proof {
                lemma_wrote_extend(f0, *file, done(text::open_dict()), whole);
            }
            return r;
        }
        let mut i: usize = 0;
        while i < entries.len()
            invariant
                i <= entries@.len(),
                entries == &dictionary.entries,
                whole == dict_piece(entries@),
                f0 == *old(file),
                wrote(f0, *file, then(done(text::open_dict()), entries_piece(entries@.take(i as int))), true),
            decreases entries@.len() - i,
        {
            let ghost fi = *file;
            let ghost before = then(done(text::open_dict()), entries_piece(entries@.take(i as int)));
            let ghost head = name_bytes(entries@[i as int].0@) + if need_separator(entries@[i as int].1) {
                text::space()
            } else {
                Seq::<u8>::empty()
            };
            let ghost step = then(done(head), object_piece(entries@[i as int].1));
            proof {
                lemma_entries_step(entries@, i as int);
                lemma_then_assoc(done(text::open_dict()), entries_piece(entries@.take(i as int)), step);
                lemma_entries_extends(entries@, i + 1);
                lemma_container_extends(text::open_dict(), entries_piece(entries@), entries_piece(entries@.take(i + 1)), text::close_dict());
                lemma_extends_then(done(head), object_piece(entries@[i as int].1));
            }
            let key = &entries[i].0;
            let value = &entries[i].1;
            let r = Writer::write_name(file, key.as_slice());
            if r.is_err() {
                proof {
                    lemma_extends_then(done(name_bytes(key@)), done(head.skip(name_bytes(key@).len() as int)));
                    assert(head =~= name_bytes(key@) + head.skip(name_bytes(key@).len() as int));
                    lemma_extends_trans(step, done(head), done(name_bytes(key@)));
                    lemma_step_fail(f0, fi, *file, before, done(name_bytes(key@)), step, whole);
                }
                return r;
            }
            let ghost fn_ = *file;
            if Writer::need_separator(value) {
                let r = file.put(text::space_bytes().as_slice());
                proof {
                    lemma_wrote_then(fi, fn_, *file, done(name_bytes(key@)), done(text::space()), true, r is Ok);
                    assert(name_bytes(key@) + text::space() =~= head);
                }
                if r.is_err() {
                    proof {
                        lemma_step_fail(f0, fi, *file, before, done(head), step, whole);
                    }
                    return r;
                }
            } else {
                proof {
                    assert(name_bytes(key@) + Seq::<u8>::empty() =~= head);
                }
            }
            let ghost fs = *file;
            let r = Writer::emit_object(file, value);
            proof {
                lemma_wrote_then(fi, fs, *file, done(head), object_piece(entries@[i as int].1), true, r is Ok);
            }
            if r.is_err() {
                proof {
                    lemma_extends_refl(step);
                    lemma_step_fail(f0, fi, *file, before, step, step, whole);
                }
                return r;
            }
            proof {
                lemma_wrote_then(f0, fi, *file, before, step, true, true);
            }
            i = i + 1;
        }
        assert(entries@.take(i as int) =~= entries@);
        let ghost fl = *file;
        let r = file.put(text::close_dict_bytes().as_slice());
        proof {
            lemma_wrote_then(
                f0,
                fl,
                *file,
                then(done(text::open_dict()), entries_piece(entries@)),
                done(text::close_dict()),
                true,
                r is Ok,
            );
        }
        r
    }

    /// Writes a stream: its dictionary, then `stream`, a line feed, the content, a line
    /// feed and `endstream`.
    pub fn write_stream(file: &mut Output, stream: &Stream) -> (r: Result<(), SaveError>)
        ensures
            wrote(*old(file), *final(file), object_piece(Object::Stream(*stream)), r is Ok),
            value_error(r, *old(file), object_piece(Object::Stream(*stream))),
        decreases stream, 1int,
    {
        let ghost f0 = *file;
        let ghost tail = text::stream_start() + stream.content@ + text::stream_end();
        let r = Writer::write_dictionary(file, &stream.dict);
        if r.is_err() {
            proof {
                lemma_extends_then(dict_piece(stream.dict.entries@), done(tail));
                lemma_wrote_extend(f0, *file, dict_piece(stream.dict.entries@), object_piece(Object::Stream(*stream)));
            }
            return r;
        }
        let mut buf = text::stream_start_bytes();
        crate::number::push_all(&mut buf, stream.content.as_slice());
        let end = text::stream_end_bytes();
        crate::number::push_all(&mut buf, end.as_slice());
        assert(buf@ =~= tail);
        let ghost fd = *file;
        let r = file.put(buf.as_slice());
        proof {
            lemma_wrote_then(f0, fd, *file, dict_piece(stream.dict.entries@), done(tail), true, r is Ok);
        }
        r
    }

    /// Writes an object in PDF syntax to the end of `file`.
    pub fn write_object(file: &mut Vec<u8>, object: &Object) -> (r: Result<(), SaveError>)
        ensures
            object_piece(*object).0.len() <= usize::MAX ==> final(file)@ == old(file)@
                + object_piece(*object).0,
            object_piece(*object).0.len() <= usize::MAX ==> (r is Ok <==> object_piece(*object).1),
            object_piece(*object).0.len() <= usize::MAX ==> (r matches Err(e) ==> e is InvalidData),
            r matches Err(e) ==> e is InvalidData || e is InvalidInput,
    {
        let mut taken: Vec<u8> = Vec::new();
        std::mem::swap(&mut taken, file);
        let mut out = CountingWrite::new(taken, 0);
        let r = Writer::emit_object(&mut out, object);
        *file = out.into_inner();
        r
    }

    /// Writes a classic cross-reference table: `xref`, then each run of consecutive object
    /// numbers as a section. Object 0 opens the first section, with its free entry or with
    /// a free entry that can never be reused. A table cannot carry a `Null` entry, nor locate
    /// an object inside an object stream: either is `Unsupported`, before any byte is written.
    pub fn write_xref(file: &mut Output, xref: &Xref) -> (r: Result<(), SaveError>)
        ensures
            has_null(xref.entries@) ==> (r matches Err(e) && e is Unsupported),
            has_null(xref.entries@) ==> *final(file) == *old(file),
            has_compressed(xref.entries@) ==> (r matches Err(e) && e is Unsupported),
            has_compressed(xref.entries@) ==> *final(file) == *old(file),
            !has_null(xref.entries@) && !has_compressed(xref.entries@) ==> wrote(
                *old(file),
                *final(file),
                done(table_bytes(xref.entries@)),
                r is Ok,
            ),
            !has_null(xref.entries@) && !has_compressed(xref.entries@) ==> (r matches Err(e)
                ==> e is InvalidInput),
    {
        if xref.entries.any_null() {
            return Err(null_serialization_error());
        }
        if xref.entries.any_compressed() {
            return Err(
                SaveError::Unsupported(
                    "a classic cross-reference table cannot locate objects inside object streams; compressed entries require cross-reference stream authority",
                ),
            );
        }
        let ghost m = xref.entries@;
        let mut first = XrefSection::new(0);
        match xref.get(0) {
            Some(e) => match *e {
                XrefEntry::Free { .. } => first.add_entry(*e),
                _ => first.add_unusable_free_entry(),
            },
            None => first.add_unusable_free_entry(),
        }
        proof {
            let want = match crate::table::zero_entry(m) {
                Some(e) => e,
                None => XrefEntry::UnusableFree,
            };
            assert(section_view(first) =~= (0u32, seq![want]));
        }
        let sections = collect_sections(xref, first);
        let ghost ss = sections_view(sections@);
        assert(ss == table_sections(m));
        let mut buf = text::xref_kw_bytes();
        let mut i: usize = 0;
        while i < sections.len()
            invariant
                i <= sections@.len(),
                ss == sections_view(sections@),
                buf@ == text::xref_kw() + sections_text(ss.take(i as int)),
            decreases sections@.len() - i,
        {
            assert(ss.take(i + 1).drop_last() =~= ss.take(i as int));
            sections[i].write_xref_section(&mut buf);
            i = i + 1;
            assert(buf@ =~= text::xref_kw() + sections_text(ss.take(i as int)));
        }
        assert(ss.take(i as int) =~= ss);
        file.put(buf.as_slice())
    }

    /// Builds the data of a cross-reference stream: a seven-byte record per entry, the
    /// runs of consecutive object numbers in order, object 0 only with a free entry. Returns
    /// the data under `filter`, the length of the unfiltered data, and the `Index` array.
    /// A `Null` entry has no record: the result is then `Unsupported`.
    pub fn create_xref_steam(xref: &Xref, filter: XRefStreamFilter) -> (r: Result<
        (Vec<u8>, usize, Object),
        SaveError,
    >)
        ensures
            r is Err <==> has_null(xref.entries@),
            r matches Err(e) ==> e is Unsupported,
            r matches Ok((data, length, index)) ==> {
                let raw = stream_records(stream_sections(xref.entries@));
                &&& length == raw.len()
                &&& data@ == filtered(raw, filter)
                &&& index matches Object::Array(items) && items@ == index_items(
                    stream_sections(xref.entries@),
                )
            },
    {
        if xref.entries.any_null() {
            return Err(null_serialization_error());
        }
        let ghost m = xref.entries@;
        let max = xref.max_id();
        let mut first = XrefSection::new(0);
        match xref.get(0) {
            Some(e) => match *e {
                XrefEntry::Free { .. } => first.add_entry(*e),
                _ => {},
            },
            None => {},
        }
        let ghost first_view = section_view(first);
        proof {
            let want = match crate::table::zero_entry(m) {
                Some(e) => seq![e],
                None => Seq::<XrefEntry>::empty(),
            };
            assert(first_view =~= (0u32, want));
        }
        let sections = collect_sections(xref, first);
        let ghost ss = sections_view(sections@);
        proof {
            lemma_all_sections_fit(m, max as nat, first_view);
            assert(ss == stream_sections(m));
        }
        let mut data: Vec<u8> = Vec::new();
        let mut index: Vec<Object> = Vec::new();
        let mut i: usize = 0;
        while i < sections.len()
            invariant
                i <= sections@.len(),
                ss == sections_view(sections@),
                sections_fit(ss, max + 1int),
                data@ == stream_records(ss.take(i as int)),
                index@ == index_items(ss.take(i as int)),
            decreases sections@.len() - i,
        {
            let s = &sections[i];
            let ghost sv: SectionView = ss[i as int];
            assert(sv == section_view(*s));
            assert(ss.take(i + 1).drop_last() =~= ss.take(i as int));
            index.push(Object::Integer(s.starting_id as i64));
            index.push(Object::Integer(s.entries.len() as i64));
            assert(index@ =~= index_items(ss.take(i + 1)));
            let ghost d0 = data@;
            let mut j: usize = 0;
            while j < s.entries.len()
                invariant
                    j <= s.entries@.len(),
                    s.starting_id + s.entries@.len() <= max + 1,
                    data@ == d0 + entry_records(s.starting_id, s.entries@.take(j as int)),
                decreases s.entries@.len() - j,
            {
                assert(s.entries@.take(j + 1).drop_last() =~= s.entries@.take(j as int));
                let id = s.starting_id + j as u32;
                s.entries[j].push_record(id, &mut data);
                j = j + 1;
                assert(data@ =~= d0 + entry_records(s.starting_id, s.entries@.take(j as int)));
            }
            assert(s.entries@.take(j as int) =~= s.entries@);
            i = i + 1;
            assert(data@ =~= stream_records(ss.take(i as int)));
        }
        assert(ss.take(i as int) =~= ss);
        let length = data.len();
        if filter == XRefStreamFilter::ASCIIHexDecode {
            let mut hex: Vec<u8> = Vec::new();
            let mut k: usize = 0;
            while k < data.len()
                invariant
                    k <= data@.len(),
                    hex@ == hex_body(data@.take(k as int)),
                decreases data@.len() - k,
            {
                assert(data@.take(k + 1).drop_last() =~= data@.take(k as int));
                push_hex2(&mut hex, data[k]);
                k = k + 1;
            }
            assert(data@.take(k as int) =~= data@);
            Ok((hex, length, Object::Array(index)))
        } else {
            Ok((data, length, Object::Array(index)))
        }
    }

    /// Writes an indirect object at the current position and records that position in
    /// `xref`. A position past `u32::MAX` cannot be recorded: it is `InvalidInput`, before
    /// anything is written or recorded.
    pub fn write_indirect_object(
        file: &mut Output,
        id: u32,
        generation: u16,
        object: &Object,
        xref: &mut Xref,
    ) -> (r: Result<(), SaveError>)
        ensures
            old(file).count() > u32::MAX ==> (r matches Err(e) && e is InvalidInput),
            old(file).count() > u32::MAX ==> *final(file) == *old(file) && *final(xref) == *old(
                xref,
            ),
            old(file).count() <= u32::MAX ==> final(xref).entries@ == old(xref).entries@.insert(
                id,
                XrefEntry::Normal { offset: old(file).count() as u32, generation },
            ),
            final(xref).size == old(xref).size,
            final(xref).cross_reference_type == old(xref).cross_reference_type,
            old(file).count() <= u32::MAX ==> wrote(
                *old(file),
                *final(file),
                indirect_piece(id, generation, *object),
                r is Ok,
            ),
            old(file).count() <= u32::MAX ==> value_error(
                r,
                *old(file),
                indirect_piece(id, generation, *object),
            ),
    {
        let offset = match file.checked_position_u32() {
            Ok(offset) => offset,
            Err(e) => return Err(e),
        };
        xref.insert(id, XrefEntry::Normal { offset, generation });
        let ghost f0 = *file;
        let ghost head = indirect_header(id, generation, *object);
        let ghost body = object_piece(*object);
        let ghost foot = indirect_footer(*object);
        let ghost whole = indirect_piece(id, generation, *object);
        let mut buf: Vec<u8> = Vec::new();
        push_dec(&mut buf, id as u64);
        buf.push(32u8);
        push_dec(&mut buf, generation as u64);
        crate::number::push_all(&mut buf, text::obj_suffix_bytes().as_slice());
        if Writer::need_separator(object) {
            buf.push(32u8);
        }
        assert(buf@ =~= head);
        proof {
            lemma_extends_then(done(head), body);
            lemma_extends_then(then(done(head), body), done(foot));
            lemma_extends_trans(whole, then(done(head), body), done(head));
        }
        let r = file.put(buf.as_slice());
        if r.is_err() {
            proof {
                lemma_wrote_extend(f0, *file, done(head), whole);
            }
            return r;
        }
        let ghost f1 = *file;
        let r = Writer::emit_object(file, object);
        if r.is_err() {
            proof {
                lemma_extends_then(then(done(head), body), done(foot));
                lemma_extends_refl(body);
                lemma_step_fail(f0, f1, *file, done(head), body, body, whole);
            }
            return r;
        }
        proof {
            lemma_wrote_then(f0, f1, *file, done(head), body, true, true);
        }
        let ghost f2 = *file;
        let mut tail: Vec<u8> = Vec::new();
        if Writer::need_end_separator(object) {
            tail.push(32u8);
        }
        crate::number::push_all(&mut tail, text::endobj_bytes().as_slice());
        assert(tail@ =~= foot);
        let r = file.put(tail.as_slice());
        proof {
            lemma_wrote_then(f0, f2, *file, then(done(head), body), done(foot), true, r is Ok);
            if r.is_err() {
                lemma_extends_refl(whole);
                lemma_extends_refl(done(foot));
                lemma_step_fail(f0, f2, *file, then(done(head), body), done(foot), done(foot), whole);
            }
        }
        r
    }

    /// Writes the binary mark line: `%`, the mark, a line feed. A mark with a byte below
    /// 128 is `InvalidData`, and nothing is written.
    pub fn write_binary_mark(file: &mut Output, binary_mark: &[u8]) -> (r: Result<(), SaveError>)
        ensures
            !mark_is_binary(binary_mark@) ==> (r matches Err(e) && e is InvalidData),
            !mark_is_binary(binary_mark@) ==> *final(file) == *old(file),
            mark_is_binary(binary_mark@) ==> wrote(
                *old(file),
                *final(file),
                done(mark_line(binary_mark@)),
                r is Ok,
            ),
            mark_is_binary(binary_mark@) ==> (r matches Err(e) ==> e is InvalidInput),
    {
        let mut i: usize = 0;
        while i < binary_mark.len()
            invariant
                i <= binary_mark@.len(),
                forall|j: int| 0 <= j < i ==> binary_mark@[j] >= 128,
            decreases binary_mark@.len() - i,
        {
            if binary_mark[i] < 128 {
                return Err(SaveError::InvalidData("Invalid binary mark"));
            }
            i = i + 1;
        }
        let mut buf = text::percent_bytes();
        crate::number::push_all(&mut buf, binary_mark);
        buf.push(10u8);
        assert(buf@ =~= mark_line(binary_mark@));
        file.put(buf.as_slice())
    }
}

} // verus!
