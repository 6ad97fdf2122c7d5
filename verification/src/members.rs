use vstd::prelude::*;

use crate::number::dec;
use crate::object::{Object, ObjectId};
use crate::packing::member_parts;
use crate::sink::{begins_at, lemma_begins_at_moves, lemma_begins_with};
use crate::syntax::object_piece;
use crate::text;

verus! {

/// Where member `i` of an object stream starts in the data: after the members before it.
pub open spec fn member_offset(chunk: Seq<(ObjectId, Object)>, i: int) -> nat {
    member_parts(chunk.take(i)).1.0.len()
}

/// The pair the header of an object stream gives for a member: its object number and its
/// offset, each followed by a space.
pub open spec fn member_pair(id: u32, offset: nat) -> Seq<u8> {
    dec(id as nat) + text::space() + dec(offset) + text::space()
}

/// In the content of an object stream whose members all have a PDF form, the header gives,
/// in member order, each member's number and an offset, and the member's object is found
/// in the data at that offset.
pub proof fn lemma_members_located(chunk: Seq<(ObjectId, Object)>, i: int)
    requires
        0 <= i < chunk.len(),
        member_parts(chunk).1.1,
    ensures
        begins_at(
            member_parts(chunk).0,
            member_parts(chunk.take(i)).0.len() as int,
            member_pair(chunk[i].0.0, member_offset(chunk, i)),
        ),
        begins_at(
            member_parts(chunk).1.0,
            member_offset(chunk, i) as int,
            object_piece(chunk[i].1).0,
        ),
    decreases chunk.len(),
{
    let shorter = chunk.drop_last();
    let (h, d) = member_parts(shorter);
    let (id, o) = chunk.last();
    let pair = member_pair(id.0, d.0.len());
    let obj = object_piece(o);
    let (header, data) = member_parts(chunk);
    assert(d.1 && obj.1);
    assert(header =~= h + pair);
    assert(data.0 =~= d.0 + obj.0 + text::space());
    if i == chunk.len() - 1 {
        assert(chunk.take(i) =~= shorter);
        lemma_begins_with(pair, Seq::empty());
        lemma_begins_at_moves(h, pair, Seq::empty(), 0, pair);
        assert(h + pair + Seq::<u8>::empty() =~= header);
        lemma_begins_with(obj.0, Seq::empty());
        lemma_begins_at_moves(d.0, obj.0, text::space(), 0, obj.0);
    } else {
        assert(shorter.take(i) =~= chunk.take(i));
        assert(shorter[i] == chunk[i]);
        lemma_members_located(shorter, i);
        lemma_begins_at_moves(Seq::empty(), h, pair, member_parts(chunk.take(i)).0.len() as int, member_pair(chunk[i].0.0, member_offset(chunk, i)));
        assert(Seq::<u8>::empty() + h + pair =~= header);
        lemma_begins_at_moves(Seq::empty(), d.0, obj.0 + text::space(), member_offset(chunk, i) as int, object_piece(chunk[i].1).0);
        assert(Seq::<u8>::empty() + d.0 + (obj.0 + text::space()) =~= data.0);
    }
}

/// In the data of an object stream whose members all have a PDF form, every member is
/// followed by a space, which ends its token, and the next member starts right after that
/// space; the data ends with the last member's space.
pub proof fn lemma_members_delimited(chunk: Seq<(ObjectId, Object)>, i: int)
    requires
        0 <= i < chunk.len(),
        member_parts(chunk).1.1,
    ensures
        begins_at(
            member_parts(chunk).1.0,
            (member_offset(chunk, i) + object_piece(chunk[i].1).0.len()) as int,
            seq![32u8],
        ),
        i + 1 < chunk.len() ==> member_offset(chunk, i + 1) == member_offset(chunk, i)
            + object_piece(chunk[i].1).0.len() + 1,
        i + 1 == chunk.len() ==> member_parts(chunk).1.0.len() == member_offset(chunk, i)
            + object_piece(chunk[i].1).0.len() + 1,
    decreases chunk.len(),
{
    let shorter = chunk.drop_last();
    let (h, d) = member_parts(shorter);
    let (id, o) = chunk.last();
    let obj = object_piece(o);
    let data = member_parts(chunk).1;
    assert(d.1 && obj.1);
    assert(data.0 =~= d.0 + obj.0 + seq![32u8]);
    if i == chunk.len() - 1 {
        assert(chunk.take(i) =~= shorter);
        let at: int = (d.0.len() + obj.0.len()) as int;
        assert(data.0.subrange(at, at + 1) =~= seq![32u8]);
    } else {
        assert(shorter.take(i) =~= chunk.take(i));
        assert(shorter[i] == chunk[i]);
        lemma_members_delimited(shorter, i);
        let at: int = (member_offset(chunk, i) + object_piece(chunk[i].1).0.len()) as int;
        assert(data.0.subrange(at, at + 1) =~= d.0.subrange(at, at + 1));
        if i + 1 < chunk.len() - 1 {
            assert(shorter.take(i + 1) =~= chunk.take(i + 1));
        } else {
            assert(chunk.take(i + 1) =~= shorter);
        }
    }
}

} // verus!
