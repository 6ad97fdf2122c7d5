use vstd::prelude::*;

use crate::body::{failed_as, run, written_directly};
use crate::document::{compressible, is_object_stream, Document, ObjectMap};
use crate::error::{kind_of, ErrorKind, SaveError};
use crate::number::{dec, dec_int, push_dec};
use crate::object::{
    key_index, lemma_key_index_none, set_pairs, Dictionary, DictView, Object, ObjectId, Stream,
};
use crate::sink::{
    done, lemma_extends_len, lemma_extends_refl, lemma_extends_then, lemma_extends_trans,
    lemma_step_fail, lemma_then_assoc, lemma_then_empty, lemma_wrote_extend, lemma_wrote_nothing,
    lemma_wrote_then, then, wrote, CountingWrite, Output, Piece,
};
use crate::syntax::{
    dict_piece, entries_piece, name_body, name_bytes, name_escaped, need_separator, object_piece,
};
use crate::text;
use crate::writer::{indirect_piece, Writer};
use crate::xref::{has_compressed, Xref, XrefEntry, XrefType};
use crate::full_save::{footer, opening, xref_part, xref_part_fits, xref_part_state};

verus! {

/// Whether a save that packs objects puts an object into an object stream.
pub open spec fn packed(trailer: DictView, id: ObjectId, o: Object) -> bool {
    !is_object_stream(o) && compressible(id, o, trailer)
}

/// The objects a packing save puts into object streams, in identifier order.
pub open spec fn packed_objects(objs: Seq<(ObjectId, Object)>, trailer: DictView) -> Seq<
    (ObjectId, Object),
>
    decreases objs.len(),
{
    if objs.len() == 0 {
        Seq::empty()
    } else {
        packed_objects(objs.drop_last(), trailer) + if packed(trailer, objs.last().0, objs.last().1) {
            seq![objs.last()]
        } else {
            Seq::empty()
        }
    }
}

/// The members of an object stream: the header of `number offset` pairs, and the data, in
/// which each object is followed by a space and is found at its offset.
pub open spec fn member_parts(chunk: Seq<(ObjectId, Object)>) -> (Seq<u8>, Piece)
    decreases chunk.len(),
{
    if chunk.len() == 0 {
        (Seq::empty(), done(Seq::empty()))
    } else {
        let (header, data) = member_parts(chunk.drop_last());
        let (id, o) = chunk.last();
        (
            header + dec(id.0 as nat) + text::space() + dec(data.0.len()) + text::space(),
            then(data, then(object_piece(o), done(text::space()))),
        )
    }
}

/// The dictionary of an object stream: `Type` `ObjStm`, the number `N` of members, the
/// offset `First` of the first member, and the `Length` of the content.
pub open spec fn objstm_dict_bytes(n: int, first: int, length: int) -> Seq<u8> {
    text::open_dict() + text::slash() + text::key_type() + text::slash() + text::name_objstm()
        + text::slash() + text::key_n() + text::space() + dec_int((n as i64) as int) + text::slash()
        + text::key_first() + text::space() + dec_int((first as i64) as int) + text::slash()
        + text::key_length() + text::space() + dec_int((length as i64) as int) + text::close_dict()
}

/// An object stream object numbered `id`, generation 0, that holds `chunk`.
pub open spec fn objstm_bytes(id: u32, chunk: Seq<(ObjectId, Object)>) -> Seq<u8> {
    let (header, data) = member_parts(chunk);
    let content = header + data.0;
    dec(id as nat) + text::space() + dec(0) + text::obj_suffix() + objstm_dict_bytes(
        chunk.len() as int,
        header.len() as int,
        content.len() as int,
    ) + text::stream_start() + content + text::stream_end() + text::space() + text::endobj()
}

/// The entries of the members of an object stream numbered `id`: each compressed, at its
/// index in the stream.
pub open spec fn member_entries(entries: Map<u32, XrefEntry>, chunk: Seq<(ObjectId, Object)>, id: u32) -> Map<
    u32,
    XrefEntry,
>
    decreases chunk.len(),
{
    if chunk.len() == 0 {
        entries
    } else {
        member_entries(entries, chunk.drop_last(), id).insert(
            chunk.last().0.0,
            XrefEntry::Compressed { container: id, index: (chunk.len() - 1) as u16 },
        )
    }
}

/// How many objects go into the next object stream.
pub open spec fn chunk_len(n: nat, size: nat) -> nat {
    if n <= size {
        n
    } else {
        size
    }
}

/// Writing the object streams for `cands`, at most `size` objects each, numbered from
/// `next_id`, from position `pos`: the bytes, the entries, the kind of error that stopped
/// the output, and the number of streams. A stream whose members have no PDF form stops
/// the output with `Other` before it is written; one past position `u32::MAX` stops it
/// with `InvalidInput`.
#[verifier::opaque]
pub open spec fn streams_out(
    cands: Seq<(ObjectId, Object)>,
    size: nat,
    next_id: int,
    pos: int,
    entries: Map<u32, XrefEntry>,
) -> (Piece, Map<u32, XrefEntry>, ErrorKind, nat)
    decreases cands.len(),
{
    if cands.len() == 0 || size == 0 {
        (done(Seq::empty()), entries, ErrorKind::Other, 0)
    } else {
        let k = chunk_len(cands.len(), size);
        let chunk = cands.take(k as int);
        let (header, data) = member_parts(chunk);
        if !data.1 || header.len() + data.0.len() > usize::MAX {
            ((Seq::empty(), false), entries, ErrorKind::Other, 0)
        } else {
            let with_members = member_entries(entries, chunk, next_id as u32);
            if pos > u32::MAX {
                ((Seq::empty(), false), with_members, ErrorKind::InvalidInput, 0)
            } else {
                let bytes = objstm_bytes(next_id as u32, chunk);
                let rest = streams_out(
                    cands.skip(k as int),
                    size,
                    next_id + 1,
                    pos + bytes.len(),
                    with_members.insert(
                        next_id as u32,
                        XrefEntry::Normal { offset: pos as u32, generation: 0 },
                    ),
                );
                (then(done(bytes), rest.0), rest.1, rest.2, rest.3 + 1)
            }
        }
    }
}

/// The number of object streams `n` objects need, at most `size` in each.
pub open spec fn stream_count(n: nat, size: nat) -> nat
    decreases n,
{
    if n == 0 || size == 0 {
        0
    } else if n <= size {
        1
    } else {
        1 + stream_count((n - size) as nat, size)
    }
}

/// Whether every byte of a name is written as itself.
pub open spec fn plain_name(s: Seq<u8>) -> bool {
    forall|i: int| 0 <= i < s.len() ==> !name_escaped(#[trigger] s[i])
}

/// A name with no byte to escape is written as a solidus and its bytes.
pub proof fn lemma_plain_name(s: Seq<u8>)
    requires
        plain_name(s),
    ensures
        name_body(s) == s,
        name_bytes(s) == text::slash() + s,
    decreases s.len(),
{
    if s.len() > 0 {
        let p = s.drop_last();
        assert(plain_name(p)) by {
            assert forall|i: int| 0 <= i < p.len() implies !name_escaped(#[trigger] p[i]) by {
                assert(p[i] == s[i]);
            }
        }
        lemma_plain_name(p);
        assert(!name_escaped(s[s.len() - 1]));
        assert(p.push(s.last()) =~= s);
        assert(name_body(s) =~= name_body(p) + seq![s.last()]);
    } else {
        assert(name_body(s) =~= s);
    }
}

/// The dictionary of an object stream is written as `objstm_dict_bytes` says.
pub proof fn lemma_objstm_dict(entries: Seq<(Vec<u8>, Object)>, n: int, first: int, length: int)
    requires
        entries.len() == 4,
        entries[0].0@ == text::key_type(),
        entries[0].1 matches Object::Name(v) && v@ == text::name_objstm(),
        entries[1].0@ == text::key_n(),
        entries[1].1 == Object::Integer(n as i64),
        entries[2].0@ == text::key_first(),
        entries[2].1 == Object::Integer(first as i64),
        entries[3].0@ == text::key_length(),
        entries[3].1 == Object::Integer(length as i64),
    ensures
        dict_piece(entries) == done(objstm_dict_bytes(n, first, length)),
{
    assert(plain_name(text::key_type()));
    assert(plain_name(text::key_n()));
    assert(plain_name(text::key_first()));
    assert(plain_name(text::key_length()));
    assert(plain_name(text::name_objstm()));
    lemma_plain_name(text::key_type());
    lemma_plain_name(text::key_n());
    lemma_plain_name(text::key_first());
    lemma_plain_name(text::key_length());
    lemma_plain_name(text::name_objstm());
    let e0 = entries.take(0);
    let e1 = entries.take(1);
    let e2 = entries.take(2);
    let e3 = entries.take(3);
    assert(e1.drop_last() =~= e0);
    assert(e2.drop_last() =~= e1);
    assert(e3.drop_last() =~= e2);
    assert(entries.drop_last() =~= e3);
    assert(e0.len() == 0);
    assert(entries_piece(e0) == done(Seq::<u8>::empty()));
    let b1 = text::slash() + text::key_type() + text::slash() + text::name_objstm();
    let b2 = b1 + text::slash() + text::key_n() + text::space() + dec_int((n as i64) as int);
    let b3 = b2 + text::slash() + text::key_first() + text::space() + dec_int((first as i64) as int);
    let b4 = b3 + text::slash() + text::key_length() + text::space() + dec_int((length as i64) as int);
    assert(entries_piece(e1) == done(b1)) by {
        assert(e1.last() == entries[0]);
        let v = entries[0].1->Name_0;
        assert(object_piece(entries[0].1) == done(name_bytes(v@)));
        assert(!need_separator(entries[0].1));
        assert(entries_piece(e1) == then(
            entries_piece(e0),
            then(done(name_bytes(entries[0].0@) + Seq::<u8>::empty()), object_piece(entries[0].1)),
        ));
        assert(Seq::<u8>::empty() + ((text::slash() + text::key_type() + Seq::<u8>::empty())
            + (text::slash() + text::name_objstm())) =~= b1);
    }
    assert(entries_piece(e2) == done(b2)) by {
        assert(e2.last() == entries[1]);
        assert(need_separator(entries[1].1));
        assert(entries_piece(e2) == then(
            entries_piece(e1),
            then(done(name_bytes(entries[1].0@) + text::space()), object_piece(entries[1].1)),
        ));
        assert(b1 + ((text::slash() + text::key_n() + text::space()) + dec_int((n as i64) as int))
            =~= b2);
    }
    assert(entries_piece(e3) == done(b3)) by {
        assert(e3.last() == entries[2]);
        assert(need_separator(entries[2].1));
        assert(entries_piece(e3) == then(
            entries_piece(e2),
            then(done(name_bytes(entries[2].0@) + text::space()), object_piece(entries[2].1)),
        ));
        assert(b2 + ((text::slash() + text::key_first() + text::space()) + dec_int(
            (first as i64) as int,
        )) =~= b3);
    }
    assert(entries_piece(entries) == done(b4)) by {
        assert(entries.last() == entries[3]);
        assert(need_separator(entries[3].1));
        assert(entries_piece(entries) == then(
            entries_piece(e3),
            then(done(name_bytes(entries[3].0@) + text::space()), object_piece(entries[3].1)),
        ));
        assert(b3 + ((text::slash() + text::key_length() + text::space()) + dec_int(
            (length as i64) as int,
        )) =~= b4);
    }
    assert(text::open_dict() + b4 + text::close_dict() =~= objstm_dict_bytes(n, first, length));
}

/// The objects at positions `from..to` of `cands`.
pub open spec fn chunk_at(objs: Seq<(ObjectId, Object)>, cands: Seq<usize>, from: int, to: int) -> Seq<
    (ObjectId, Object),
> {
    Seq::new((to - from) as nat, |j: int| objs[cands[from + j] as int])
}

/// The data of more members continues that of fewer.
pub proof fn lemma_member_extends(chunk: Seq<(ObjectId, Object)>, i: int)
    requires
        0 <= i <= chunk.len(),
    ensures
        crate::sink::extends(member_parts(chunk).1, member_parts(chunk.take(i)).1),
    decreases chunk.len() - i,
{
    if i < chunk.len() {
        let shorter = chunk.drop_last();
        assert(shorter.take(i) =~= chunk.take(i));
        lemma_member_extends(shorter, i);
        let p = member_parts(shorter).1;
        let (id, o) = chunk.last();
        lemma_extends_then(p, then(object_piece(o), done(text::space())));
        lemma_extends_trans(member_parts(chunk).1, p, member_parts(chunk.take(i)).1);
    } else {
        assert(chunk.take(i) =~= chunk);
        lemma_extends_refl(member_parts(chunk).1);
    }
}

/// Builds the header and the data of an object stream holding the objects at positions
/// `from..to` of `cands`. A member with no PDF form, or content too long for memory,
/// is `Other`.
fn build_members(objects: &ObjectMap, cands: &Vec<usize>, from: usize, to: usize) -> (r: Result<
    (Vec<u8>, Vec<u8>),
    SaveError,
>)
    requires
        from <= to <= cands@.len(),
        forall|j: int| from <= j < to ==> cands@[j] < objects@.len(),
    ensures
        ({
            let (header, data) = member_parts(chunk_at(objects@, cands@, from as int, to as int));
            &&& r matches Ok((h, d)) ==> h@ == header && d@ == data.0
            &&& r is Ok <==> data.1 && header.len() + data.0.len() <= usize::MAX
            &&& r matches Err(e) ==> e is Other
        }),
{
    let ghost objs = objects@;
    let ghost chunk = chunk_at(objs, cands@, from as int, to as int);
    let mut header: Vec<u8> = Vec::new();
    let mut data: Output = CountingWrite::new(Vec::new(), 0);
    let ghost d0 = data;
    let mut j: usize = from;
    proof {
        assert(chunk.take(0) =~= Seq::<(ObjectId, Object)>::empty());
        lemma_wrote_nothing(d0);
    }
    while j < to
        invariant
            from <= j <= to <= cands@.len(),
            forall|k: int| from <= k < to ==> cands@[k] < objects@.len(),
            objs == objects@,
            chunk == chunk_at(objs, cands@, from as int, to as int),
            d0.count() == 0,
            d0.sink()@ == Seq::<u8>::empty(),
            header@ == member_parts(chunk.take(j - from)).0,
            member_parts(chunk.take(j - from)).1.1,
            wrote(d0, data, member_parts(chunk.take(j - from)).1, true),
        decreases to - j,
    {
        let ghost before = member_parts(chunk.take(j - from));
        let ghost di = data;
        let (id, object) = objects.at(cands[j]);
        assert(chunk.take(j - from + 1).drop_last() =~= chunk.take(j - from));
        assert(chunk.take(j - from + 1).last() == (id, *object));
        let offset = data.bytes_written();
        push_dec(&mut header, id.0 as u64);
        header.push(32u8);
        push_dec(&mut header, offset as u64);
        header.push(32u8);
        assert(header@ =~= member_parts(chunk.take(j - from + 1)).0);
        let ghost step = then(object_piece(*object), done(text::space()));
        proof {
            lemma_member_extends(chunk, j - from + 1);
            lemma_extends_then(object_piece(*object), done(text::space()));
        }
        let r = Writer::emit_object(&mut data, object);
        if r.is_err() {
            proof {
                let whole = member_parts(chunk).1;
                let next = member_parts(chunk.take(j - from + 1)).1;
                lemma_wrote_then(d0, di, data, before.1, object_piece(*object), true, false);
                crate::sink::lemma_extends_cong(before.1, step, object_piece(*object));
                lemma_extends_trans(whole, next, then(before.1, object_piece(*object)));
                lemma_extends_len(whole, then(before.1, object_piece(*object)));
            }
            return Err(SaveError::Other("an object stream member has no PDF form"));
        }
        let ghost de = data;
        let r = data.put(text::space_bytes().as_slice());
        proof {
            lemma_wrote_then(di, de, data, object_piece(*object), done(text::space()), true, r is Ok);
            lemma_wrote_then(d0, di, data, before.1, step, true, r is Ok);
        }
        if r.is_err() {
            proof {
                let whole = member_parts(chunk).1;
                lemma_extends_len(whole, then(before.1, step));
            }
            return Err(SaveError::Other("an object stream member has no PDF form"));
        }
        j = j + 1;
    }
    assert(chunk.take(j - from) =~= chunk);
    let d = data.into_inner();
    if d.len() > usize::MAX - header.len() {
        return Err(SaveError::Other("object stream content exceeds the supported range"));
    }
    Ok((header, d))
}

/// An object stream object: its dictionary and `content`.
fn objstm_object(content: Vec<u8>, n: usize, first: usize) -> (o: Object)
    ensures
        o is Stream,
        object_piece(o) == done(
            objstm_dict_bytes(n as int, first as int, content@.len() as int) + (text::stream_start()
                + content@ + text::stream_end()),
        ),
{
    let ghost content_v = content@;
    let nm = Object::Name(text::name_objstm_bytes());
    let mut dict = Dictionary::new();
    dict.set(text::key_type_bytes(), nm);
    let ghost v1 = dict@;
    proof {
        lemma_key_index_none(v1, text::key_n());
    }
    dict.set(text::key_n_bytes(), Object::Integer(n as i64));
    let ghost v2 = dict@;
    proof {
        lemma_key_index_none(v2, text::key_first());
    }
    dict.set(text::key_first_bytes(), Object::Integer(first as i64));
    let ghost v3 = dict@;
    proof {
        lemma_key_index_none(v3, text::key_length());
    }
    let stream = Stream::new(dict, content);
    proof {
        let e = stream.dict.entries@;
        assert(stream.dict@.len() == 4);
        assert(e.len() == 4);
        assert(stream.dict@[0] == (e[0].0@, e[0].1));
        assert(stream.dict@[1] == (e[1].0@, e[1].1));
        assert(stream.dict@[2] == (e[2].0@, e[2].1));
        assert(stream.dict@[3] == (e[3].0@, e[3].1));
        lemma_objstm_dict(e, n as int, first as int, content_v.len() as int);
    }
    Object::Stream(stream)
}

/// Writes the object stream numbered `id` that holds the objects at positions `from..to`
/// of `cands`, after recording its members as compressed entries of that stream.
fn write_object_stream(
    objects: &ObjectMap,
    file: &mut Output,
    xref: &mut Xref,
    cands: &Vec<usize>,
    from: usize,
    to: usize,
    id: u32,
) -> (r: Result<(), SaveError>)
    requires
        from < to <= cands@.len(),
        to - from <= 65536,
        forall|j: int| from <= j < to ==> cands@[j] < objects@.len(),
    ensures
        ({
            let chunk = chunk_at(objects@, cands@, from as int, to as int);
            let (header, data) = member_parts(chunk);
            let pos = old(file).count();
            let members = member_entries(old(xref).entries@, chunk, id);
            &&& final(xref).size == old(xref).size
            &&& final(xref).cross_reference_type == old(xref).cross_reference_type
            &&& (!data.1 || header.len() + data.0.len() > usize::MAX) ==> {
                &&& r matches Err(e) && e is Other
                &&& *final(file) == *old(file)
                &&& final(xref).entries@ == old(xref).entries@
            }
            &&& (data.1 && header.len() + data.0.len() <= usize::MAX && pos > u32::MAX) ==> {
                &&& r matches Err(e) && e is InvalidInput
                &&& *final(file) == *old(file)
                &&& final(xref).entries@ == members
            }
            &&& (data.1 && header.len() + data.0.len() <= usize::MAX && pos <= u32::MAX) ==> {
                &&& final(xref).entries@ == members.insert(
                    id,
                    XrefEntry::Normal { offset: pos as u32, generation: 0 },
                )
                &&& wrote(*old(file), *final(file), done(objstm_bytes(id, chunk)), r is Ok)
                &&& r matches Err(e) ==> e is InvalidInput || e is InvalidData
            }
        }),
{
    let ghost objs = objects@;
    let ghost chunk = chunk_at(objs, cands@, from as int, to as int);
    let ghost m0 = xref.entries@;
    let (header, data) = match build_members(objects, cands, from, to) {
        Ok(t) => t,
        Err(e) => return Err(e),
    };
    let first = header.len();
    let mut content = header;
    crate::number::push_all(&mut content, data.as_slice());
    let mut j: usize = from;
    proof {
        assert(chunk.take(0) =~= Seq::<(ObjectId, Object)>::empty());
    }
    while j < to
        invariant
            from <= j <= to <= cands@.len(),
            to - from <= 65536,
            forall|k: int| from <= k < to ==> cands@[k] < objects@.len(),
            objs == objects@,
            chunk == chunk_at(objs, cands@, from as int, to as int),
            xref.entries@ == member_entries(m0, chunk.take(j - from), id),
            xref.size == old(xref).size,
            xref.cross_reference_type == old(xref).cross_reference_type,
        decreases to - j,
    {
        let (oid, _object) = objects.at(cands[j]);
        assert(chunk.take(j - from + 1).drop_last() =~= chunk.take(j - from));
        assert(chunk.take(j - from + 1).last().0 == oid);
        xref.insert(oid.0, XrefEntry::Compressed { container: id, index: (j - from) as u16 });
        j = j + 1;
    }
    assert(chunk.take(j - from) =~= chunk);
    let ghost content_v = content@;
    let obj = objstm_object(content, to - from, first);
    let r = Writer::write_indirect_object(file, id, 0, &obj, xref);
    proof {
        let hd = crate::writer::indirect_header(id, 0, obj);
        let ft = crate::writer::indirect_footer(obj);
        let db = objstm_dict_bytes((to - from) as int, first as int, content_v.len() as int);
        assert(indirect_piece(id, 0, obj) == done(hd + (db + (text::stream_start() + content_v + text::stream_end())) + ft));
        assert(hd + (db + (text::stream_start() + content_v + text::stream_end())) + ft =~= objstm_bytes(id, chunk));
    }
    r
}

/// What the next object stream contributes to the output.
pub proof fn lemma_streams_out_step(
    cands: Seq<(ObjectId, Object)>,
    size: nat,
    next_id: int,
    pos: int,
    entries: Map<u32, XrefEntry>,
)
    ensures
        streams_out(cands, size, next_id, pos, entries) == if cands.len() == 0 || size == 0 {
            (done(Seq::<u8>::empty()), entries, ErrorKind::Other, 0nat)
        } else {
            let k = chunk_len(cands.len(), size);
            let chunk = cands.take(k as int);
            let (header, data) = member_parts(chunk);
            if !data.1 || header.len() + data.0.len() > usize::MAX {
                ((Seq::<u8>::empty(), false), entries, ErrorKind::Other, 0nat)
            } else {
                let with_members = member_entries(entries, chunk, next_id as u32);
                if pos > u32::MAX {
                    ((Seq::<u8>::empty(), false), with_members, ErrorKind::InvalidInput, 0nat)
                } else {
                    let bytes = objstm_bytes(next_id as u32, chunk);
                    let rest = streams_out(
                        cands.skip(k as int),
                        size,
                        next_id + 1,
                        pos + bytes.len(),
                        with_members.insert(
                            next_id as u32,
                            XrefEntry::Normal { offset: pos as u32, generation: 0 },
                        ),
                    );
                    (then(done(bytes), rest.0), rest.1, rest.2, rest.3 + 1)
                }
            }
        },
{
    reveal(streams_out);
}

/// The streams written never outnumber the streams the objects need.
pub proof fn lemma_streams_out_count(
    cands: Seq<(ObjectId, Object)>,
    size: nat,
    next_id: int,
    pos: int,
    entries: Map<u32, XrefEntry>,
)
    ensures
        streams_out(cands, size, next_id, pos, entries).3 <= stream_count(cands.len(), size),
    decreases cands.len(),
{
    lemma_streams_out_step(cands, size, next_id, pos, entries);
    if cands.len() > 0 && size > 0 {
        let k = chunk_len(cands.len(), size);
        let chunk = cands.take(k as int);
        let (header, data) = member_parts(chunk);
        if data.1 && header.len() + data.0.len() <= usize::MAX && pos <= u32::MAX {
            let with_members = member_entries(entries, chunk, next_id as u32);
            let bytes = objstm_bytes(next_id as u32, chunk);
            lemma_streams_out_count(
                cands.skip(k as int),
                size,
                next_id + 1,
                pos + bytes.len(),
                with_members.insert(next_id as u32, XrefEntry::Normal { offset: pos as u32, generation: 0 }),
            );
            lemma_stream_count_step(cands.len(), size);
        }
    }
}

/// One more stream when objects are left.
pub proof fn lemma_stream_count_step(n: nat, size: nat)
    requires
        n > 0,
        size > 0,
    ensures
        stream_count(n, size) == 1 + stream_count((n - chunk_len(n, size)) as nat, size),
{
}

impl Document {
    /// The positions, in identifier order, of the objects that a packing save puts into
    /// object streams.
    pub fn packed_positions(&self) -> (r: Vec<usize>)
        ensures
            forall|j: int| 0 <= j < r@.len() ==> r@[j] < self.objects@.len(),
            chunk_at(self.objects@, r@, 0, r@.len() as int) == packed_objects(
                self.objects@,
                self.trailer@,
            ),
    {
        let ghost objs = self.objects@;
        let n = self.objects.len();
        let mut r: Vec<usize> = Vec::new();
        let mut i: usize = 0;
        proof {
            assert(objs.take(0) =~= Seq::<(ObjectId, Object)>::empty());
            assert(chunk_at(objs, r@, 0, 0) =~= Seq::<(ObjectId, Object)>::empty());
        }
        while i < n
            invariant
                i <= n == objs.len(),
                objs == self.objects@,
                forall|j: int| 0 <= j < r@.len() ==> r@[j] < i,
                chunk_at(objs, r@, 0, r@.len() as int) == packed_objects(
                    objs.take(i as int),
                    self.trailer@,
                ),
            decreases n - i,
        {
            let (id, object) = self.objects.at(i);
            assert(objs.take(i + 1).drop_last() =~= objs.take(i as int));
            let ghost before = r@;
            if !crate::document::is_existing_object_stream(object) && crate::document::can_be_compressed(
                id,
                object,
                self,
            ) {
                r.push(i);
                assert(chunk_at(objs, r@, 0, r@.len() as int) =~= chunk_at(
                    objs,
                    before,
                    0,
                    before.len() as int,
                ).push(objs[i as int]));
            } else {
                assert(chunk_at(objs, r@, 0, r@.len() as int) =~= chunk_at(
                    objs,
                    before,
                    0,
                    before.len() as int,
                ));
            }
            i = i + 1;
        }
        assert(objs.take(i as int) =~= objs);
        r
    }

    /// Writes the object streams for the objects at the positions `cands`, at most `size`
    /// in each, numbered from one past the highest object number, each after recording its
    /// members as compressed entries; returns how many it wrote.
    #[verifier::rlimit(40)]
    pub fn write_object_streams(
        &self,
        file: &mut Output,
        xref: &mut Xref,
        cands: &Vec<usize>,
        size: usize,
    ) -> (r: Result<u32, SaveError>)
        requires
            1 <= size <= 65536,
            forall|j: int| 0 <= j < cands@.len() ==> cands@[j] < self.objects@.len(),
            self.max_id + stream_count(cands@.len(), size as nat) <= u32::MAX,
        ensures
            ({
                let chunks = chunk_at(self.objects@, cands@, 0, cands@.len() as int);
                let (p, m, k, count) = streams_out(
                    chunks,
                    size as nat,
                    self.max_id + 1,
                    old(file).count() as int,
                    old(xref).entries@,
                );
                &&& old(file).count() + p.0.len() <= usize::MAX ==> final(xref).entries@ == m
                &&& final(xref).size == old(xref).size
                &&& final(xref).cross_reference_type == old(xref).cross_reference_type
                &&& wrote(*old(file), *final(file), p, r is Ok)
                &&& r matches Ok(c) ==> c == count
                &&& r matches Err(e) ==> ((e is InvalidData || e is InvalidInput || e is Other)
                    && (old(file).count() + p.0.len() <= usize::MAX ==> crate::error::kind_of(e)
                    == k))
            }),
    {
        let ghost objs = self.objects@;
        let ghost all = chunk_at(objs, cands@, 0, cands@.len() as int);
        let ghost f0 = *file;
        let ghost m0 = xref.entries@;
        let ghost id0 = self.max_id + 1;
        let ghost total = streams_out(all, size as nat, id0, f0.count() as int, m0);
        let ghost mut acc: Seq<u8> = Seq::empty();
        let n = cands.len();
        let mut start: usize = 0;
        let mut count: u32 = 0;
        proof {
            lemma_wrote_nothing(f0);
            assert(all.skip(0) =~= all);
            lemma_then_empty(total.0);
        }
        while start < n
            invariant
                start <= n == cands@.len(),
                1 <= size <= 65536,
                forall|j: int| 0 <= j < cands@.len() ==> cands@[j] < objs.len(),
                objs == self.objects@,
                all == chunk_at(objs, cands@, 0, n as int),
                f0 == *old(file),
                m0 == old(xref).entries@,
                total == streams_out(all, size as nat, id0, f0.count() as int, m0),
                id0 == self.max_id + 1,
                self.max_id + stream_count(n as nat, size as nat) <= u32::MAX,
                count + stream_count((n - start) as nat, size as nat) == stream_count(
                    n as nat,
                    size as nat,
                ),
                wrote(f0, *file, done(acc), true),
                ({
                    let rest = streams_out(
                        all.skip(start as int),
                        size as nat,
                        id0 + count,
                        f0.count() + acc.len(),
                        xref.entries@,
                    );
                    total == (then(done(acc), rest.0), rest.1, rest.2, (count + rest.3) as nat)
                }),
                xref.size == old(xref).size,
                xref.cross_reference_type == old(xref).cross_reference_type,
            decreases n - start,
        {
            let ghost fi = *file;
            let ghost mi = xref.entries@;
            let ghost left = all.skip(start as int);
            let end: usize = if n - start <= size {
                n
            } else {
                start + size
            };
            let ghost k = chunk_len(left.len(), size as nat);
            assert(end - start == k);
            assert(left.take(k as int) =~= chunk_at(objs, cands@, start as int, end as int));
            assert(left.skip(k as int) =~= all.skip(end as int));
            proof {
                lemma_stream_count_step(left.len(), size as nat);
                lemma_streams_out_step(left, size as nat, id0 + count, f0.count() + acc.len(), mi);
            }
            let id = self.max_id + 1 + count;
            let r = write_object_stream(&self.objects, file, xref, cands, start, end, id);
            let ghost bytes = objstm_bytes(id, chunk_at(objs, cands@, start as int, end as int));
            if r.is_err() {
                proof {
                    let chunk = chunk_at(objs, cands@, start as int, end as int);
                    let (header, data) = member_parts(chunk);
                    if data.1 && header.len() + data.0.len() <= usize::MAX && fi.count() <= u32::MAX {
                        let rest2 = streams_out(
                            all.skip(end as int),
                            size as nat,
                            id0 + count + 1,
                            f0.count() + acc.len() + bytes.len(),
                            member_entries(mi, chunk, id).insert(
                                id,
                                XrefEntry::Normal { offset: fi.count() as u32, generation: 0 },
                            ),
                        );
                        lemma_wrote_then(f0, fi, *file, done(acc), done(bytes), true, false);
                        lemma_extends_then(done(bytes), rest2.0);
                        crate::sink::lemma_extends_cong(done(acc), then(done(bytes), rest2.0), done(bytes));
                        lemma_wrote_extend(f0, *file, then(done(acc), done(bytes)), total.0);
                        lemma_extends_len(total.0, then(done(acc), done(bytes)));
                    } else {
                        assert(acc + Seq::<u8>::empty() =~= acc);
                        assert(total.0 == (acc, false));
                        assert(wrote(f0, *file, (acc, false), false));
                    }
                    assert(wrote(f0, *file, total.0, false));
                }
                return Err(r.unwrap_err());
            }
            proof {
                let chunk = chunk_at(objs, cands@, start as int, end as int);
                let rest2 = streams_out(
                    all.skip(end as int),
                    size as nat,
                    id0 + count + 1,
                    f0.count() + acc.len() + bytes.len(),
                    xref.entries@,
                );
                lemma_wrote_then(f0, fi, *file, done(acc), done(bytes), true, true);
                lemma_then_assoc(done(acc), done(bytes), rest2.0);
                acc = acc + bytes;
            }
            count = count + 1;
            start = end;
        }
        proof {
            assert(all.skip(start as int) =~= Seq::<(ObjectId, Object)>::empty());
            lemma_streams_out_step(all.skip(start as int), size as nat, id0 + count, f0.count() + acc.len(), xref.entries@);
            lemma_then_empty(done(acc));
        }
        Ok(count)
    }
}

/// A save of `doc` that packs objects into object streams of at most `size` objects, from
/// position `start`: the opening, the objects written directly, the object streams, the
/// cross-reference part and the footer, and the kind of error that stops it. The object
/// streams take the numbers after the highest one; `after` is the document once written.
pub open spec fn packing_save(doc: Document, after: Document, size: nat, start: int) -> (
    Piece,
    ErrorKind,
) {
    let o = opening(doc.version@, doc.binary_mark@);
    let body_start = start + o.0.len();
    let (b, direct, body_kind) = run(doc.objects@, doc.trailer@, true, body_start, Map::empty());
    let streams_start = body_start + b.0.len();
    let (s, entries, streams_kind, count) = streams_out(
        packed_objects(doc.objects@, doc.trailer@),
        size,
        doc.max_id + 1,
        streams_start,
        direct,
    );
    let xref_start = streams_start + s.0.len();
    let mid = Document { max_id: (doc.max_id + count) as u32, ..doc };
    let (x, xref_kind) = xref_part(mid, after, entries, xref_start);
    let whole = then(then(then(then(o, b), s), x), done(footer(xref_start as nat)));
    let kind = if !o.1 {
        ErrorKind::InvalidData
    } else if !b.1 {
        body_kind
    } else if !s.1 {
        streams_kind
    } else {
        xref_kind
    };
    (whole, kind)
}

/// The object numbers a packing save hands out stay within `u32`.
pub open spec fn packing_fits(doc: Document, size: nat, start: int) -> bool {
    let o = opening(doc.version@, doc.binary_mark@);
    let body_start = start + o.0.len();
    let (b, direct, _k) = run(doc.objects@, doc.trailer@, true, body_start, Map::empty());
    let streams_start = body_start + b.0.len();
    let cands = packed_objects(doc.objects@, doc.trailer@);
    let (s, entries, _sk, count) = streams_out(cands, size, doc.max_id + 1, streams_start, direct);
    let mid = Document { max_id: (doc.max_id + count) as u32, ..doc };
    &&& o.1 && b.1 ==> doc.max_id + stream_count(cands.len(), size) <= u32::MAX
    &&& o.1 && b.1 && s.1 ==> xref_part_fits(mid, entries, streams_start + s.0.len())
}

/// The document once a packing save is over: as the cross-reference part leaves it, with
/// the object streams' numbers taken, when the save gets there; unchanged otherwise.
pub open spec fn packing_state(doc: Document, after: Document, size: nat, start: int) -> bool {
    let o = opening(doc.version@, doc.binary_mark@);
    let body_start = start + o.0.len();
    let (b, direct, _k) = run(doc.objects@, doc.trailer@, true, body_start, Map::empty());
    let streams_start = body_start + b.0.len();
    let (s, entries, _sk, count) = streams_out(
        packed_objects(doc.objects@, doc.trailer@),
        size,
        doc.max_id + 1,
        streams_start,
        direct,
    );
    let mid = Document { max_id: (doc.max_id + count) as u32, ..doc };
    if o.1 && b.1 && s.1 {
        xref_part_state(mid, after, entries, streams_start + s.0.len())
    } else {
        after == doc
    }
}

/// How a save that may build object streams failed: with `kind` when the whole output
/// fits the counter.
pub open spec fn failed_with(r: Result<(), SaveError>, before: Output, piece: Piece, kind: ErrorKind) -> bool {
    r matches Err(e) ==> ((e is InvalidData || e is InvalidInput || e is Other) && (before.count()
        + piece.0.len() <= usize::MAX ==> kind_of(e) == kind))
}

impl Document {
    /// Writes the document with the objects that can be packed in object streams of at
    /// most `size` objects: the opening, the other objects, the object streams, the
    /// cross-reference part and the footer.
    pub fn save_packed(&mut self, target: &mut Output, size: usize) -> (r: Result<(), SaveError>)
        requires
            old(self).max_id < u32::MAX,
            packed_objects(old(self).objects@, old(self).trailer@).len() > 0 ==> 1 <= size <= 65536,
            old(self).reference_table.cross_reference_type == XrefType::CrossReferenceTable
                ==> packed_objects(old(self).objects@, old(self).trailer@).len() == 0,
            packing_fits(*old(self), size as nat, old(target).count() as int),
        ensures
            ({
                let (whole, kind) = packing_save(
                    *old(self),
                    *final(self),
                    size as nat,
                    old(target).count() as int,
                );
                &&& wrote(*old(target), *final(target), whole, r is Ok)
                &&& failed_with(r, *old(target), whole, kind)
                &&& old(target).count() + whole.0.len() <= usize::MAX ==> packing_state(
                    *old(self),
                    *final(self),
                    size as nat,
                    old(target).count() as int,
                )
            }),
    {
        let ghost d0 = *self;
        let ghost f0 = *target;
        let ghost cands_v = packed_objects(d0.objects@, d0.trailer@);
        let mut xref = Xref::new(self.max_id + 1, self.reference_table.cross_reference_type);
        let ghost o = opening(self.version@, self.binary_mark@);
        let r = self.write_opening(target);
        let ghost f1 = *target;
        let ghost body_start = f0.count() + o.0.len();
        let ghost bw = run(d0.objects@, d0.trailer@, true, body_start, Map::empty());
        let ghost b = bw.0;
        let ghost so = streams_out(cands_v, size as nat, d0.max_id + 1, body_start + b.0.len(), bw.1);
        let ghost sp = so.0;
        proof {
            let whole = packing_save(d0, *self, size as nat, f0.count() as int).0;
            let mid = Document { max_id: (d0.max_id + so.3) as u32, ..d0 };
            let x = xref_part(mid, *self, so.1, body_start + b.0.len() + sp.0.len()).0;
            let xs = body_start + b.0.len() + sp.0.len();
            lemma_extends_then(o, b);
            lemma_extends_then(then(then(then(o, b), sp), x), done(footer(xs as nat)));
            lemma_extends_then(then(then(o, b), sp), x);
            lemma_extends_then(then(o, b), sp);
            lemma_extends_trans(whole, then(then(then(o, b), sp), x), then(then(o, b), sp));
            lemma_extends_trans(whole, then(then(o, b), sp), then(o, b));
            lemma_extends_trans(whole, then(o, b), o);
            lemma_extends_len(whole, o);
            if r.is_err() {
                lemma_wrote_extend(f0, f1, o, whole);
            }
        }
        if r.is_err() {
            return r;
        }
        let r = self.write_objects(target, &mut xref, true);
        let ghost f2 = *target;
        if r.is_err() {
            proof {
                let whole = packing_save(d0, *self, size as nat, f0.count() as int).0;
                lemma_extends_refl(b);
                lemma_step_fail(f0, f1, f2, o, b, b, whole);
            }
            return r;
        }
        proof {
            lemma_wrote_then(f0, f1, f2, o, b, true, true);
            crate::body::lemma_run_entries(d0.objects@, d0.trailer@, true, body_start, Map::empty());
        }
        let cands = self.packed_positions();
        let count: u32 = if cands.len() == 0 {
            proof {
                lemma_streams_out_step(cands_v, size as nat, d0.max_id + 1, body_start + b.0.len(), bw.1);
                lemma_wrote_nothing(f2);
            }
            0
        } else {
            match self.write_object_streams(target, &mut xref, &cands, size) {
                Ok(c) => c,
                Err(e) => {
                    proof {
                        let whole = packing_save(d0, *self, size as nat, f0.count() as int).0;
                        lemma_extends_refl(sp);
                        lemma_step_fail(f0, f2, *target, then(o, b), sp, sp, whole);
                    }
                    return Err(e);
                },
            }
        };
        let ghost f3 = *target;
        proof {
            lemma_wrote_then(f0, f2, f3, then(o, b), sp, true, true);
            lemma_streams_out_count(cands_v, size as nat, d0.max_id + 1, body_start + b.0.len(), bw.1);
            if cands_v.len() == 0 {
                assert(!has_compressed(xref.entries@));
            }
        }
        self.max_id = self.max_id + count;
        let ghost mid = *self;
        assert(mid == Document { max_id: (d0.max_id + so.3) as u32, ..d0 });
        let xref_start = target.bytes_written();
        let r = self.write_xref_part(target, &mut xref);
        let ghost f4 = *target;
        let ghost x = xref_part(mid, *self, so.1, xref_start as int).0;
        let ghost whole = then(then(then(then(o, b), sp), x), done(footer(xref_start as nat)));
        proof {
            lemma_extends_then(then(then(then(o, b), sp), x), done(footer(xref_start as nat)));
        }
        if r.is_err() {
            proof {
                lemma_extends_refl(x);
                lemma_step_fail(f0, f3, f4, then(then(o, b), sp), x, x, whole);
            }
            return r;
        }
        proof {
            lemma_wrote_then(f0, f3, f4, then(then(o, b), sp), x, true, true);
        }
        let r = Document::write_footer(target, xref_start);
        proof {
            lemma_wrote_then(f0, f4, *target, then(then(then(o, b), sp), x), done(footer(xref_start as nat)), true, r is Ok);
        }
        r
    }
}

} // verus!
