use vstd::prelude::*;

use crate::decimal::expand_spec;
use crate::number::{dec, dec_int, hex2};
use crate::object::{Object, RealNumber, StringFormat};
use crate::sink::{done, then, Piece};
use crate::text;

verus! {

/// Whether a value written after another token must be separated from it by a space.
pub open spec fn need_separator(o: Object) -> bool {
    match o {
        Object::Null | Object::Boolean(_) | Object::Integer(_) | Object::Real(_)
        | Object::Reference(_) => true,
        _ => false,
    }
}

/// Whether a value must be followed by a space before `endobj`.
pub open spec fn need_end_separator(o: Object) -> bool {
    match o {
        Object::Null | Object::Boolean(_) | Object::Integer(_) | Object::Real(_) | Object::Name(_)
        | Object::Reference(_) | Object::Stream(_) => true,
        _ => false,
    }
}

/// Whether a byte of a name is written as `#` and two hexadecimal digits: white space,
/// delimiters, `#`, and every byte outside `!`..=`~`.
pub open spec fn name_escaped(b: u8) -> bool {
    b < 33 || b > 126 || b == 40 || b == 41 || b == 60 || b == 62 || b == 91 || b == 93 || b == 123
        || b == 125 || b == 47 || b == 37 || b == 35
}

/// The bytes for one byte of a name.
pub open spec fn name_byte(b: u8) -> Seq<u8> {
    if name_escaped(b) {
        seq![35u8] + hex2(b)
    } else {
        seq![b]
    }
}

/// The bytes of a name after its leading solidus.
pub open spec fn name_body(n: Seq<u8>) -> Seq<u8>
    decreases n.len(),
{
    if n.len() == 0 {
        Seq::empty()
    } else {
        name_body(n.drop_last()) + name_byte(n.last())
    }
}

/// A name token.
pub open spec fn name_bytes(n: Seq<u8>) -> Seq<u8> {
    text::slash() + name_body(n)
}

/// Scans a literal string for the bytes that need a backslash: backslashes, carriage
/// returns and closing parentheses with no open one before them are marked as they come;
/// the positions of the opening parentheses not yet closed are kept, last one last.
pub open spec fn paren_scan(t: Seq<u8>) -> (Seq<bool>, Seq<int>)
    decreases t.len(),
{
    if t.len() == 0 {
        (Seq::empty(), Seq::empty())
    } else {
        let (marks, open) = paren_scan(t.drop_last());
        let i = t.len() - 1;
        let b = t.last();
        if b == 40 {
            (marks.push(false), open.push(i))
        } else if b == 41 {
            if open.len() > 0 {
                (marks.push(false), open.drop_last())
            } else {
                (marks.push(true), open)
            }
        } else if b == 92 || b == 13 {
            (marks.push(true), open)
        } else {
            (marks.push(false), open)
        }
    }
}

/// Which bytes of a literal string are escaped: the marked ones, and the opening
/// parentheses that no closing one matches.
pub open spec fn literal_escapes(t: Seq<u8>) -> Seq<bool> {
    let (marks, open) = paren_scan(t);
    Seq::new(t.len(), |i: int| marks[i] || open.contains(i))
}

/// The bytes for one byte of a literal string; an escaped carriage return becomes `\r`.
pub open spec fn literal_byte(b: u8, escaped: bool) -> Seq<u8> {
    if escaped {
        seq![92u8, if b == 13 { 114u8 } else { b }]
    } else {
        seq![b]
    }
}

/// The bytes of a literal string between its parentheses.
pub open spec fn literal_body(t: Seq<u8>, escapes: Seq<bool>) -> Seq<u8>
    decreases t.len(),
{
    if t.len() == 0 {
        Seq::empty()
    } else {
        literal_body(t.drop_last(), escapes.drop_last()) + literal_byte(t.last(), escapes.last())
    }
}

/// The uppercase hexadecimal digits of every byte.
pub open spec fn hex_body(t: Seq<u8>) -> Seq<u8>
    decreases t.len(),
{
    if t.len() == 0 {
        Seq::empty()
    } else {
        hex_body(t.drop_last()) + hex2(t.last())
    }
}

/// A string token.
pub open spec fn string_bytes(t: Seq<u8>, format: StringFormat) -> Seq<u8> {
    match format {
        StringFormat::Literal => text::open_paren() + literal_body(t, literal_escapes(t))
            + text::close_paren(),
        StringFormat::Hexadecimal => text::open_hex() + hex_body(t) + text::close_hex(),
    }
}

/// A real token: plain decimal notation with a decimal point; a value that is not
/// finite has none and writes nothing.
pub open spec fn real_piece(r: RealNumber) -> Piece {
    match r.text() {
        Some(t) => match expand_spec(t) {
            Some(token) => done(token),
            None => (Seq::empty(), false),
        },
        None => (Seq::empty(), false),
    }
}

/// An indirect reference token.
pub open spec fn reference_bytes(id: (u32, u16)) -> Seq<u8> {
    dec(id.0 as nat) + text::space() + dec(id.1 as nat) + text::ref_suffix()
}

/// The bytes of an object.
pub open spec fn object_piece(o: Object) -> Piece
    decreases o, 0int,
{
    match o {
        Object::Null => done(text::kw_null()),
        Object::Boolean(v) => done(
            if v {
                text::kw_true()
            } else {
                text::kw_false()
            },
        ),
        Object::Integer(v) => done(dec_int(v as int)),
        Object::Real(r) => real_piece(r),
        Object::Name(n) => done(name_bytes(n@)),
        Object::String(t, f) => done(string_bytes(t@, f)),
        Object::Array(items) => then(
            then(done(text::open_array()), items_piece(items@)),
            done(text::close_array()),
        ),
        Object::Dictionary(d) => dict_piece(d.entries@),
        Object::Stream(s) => then(
            dict_piece(s.dict.entries@),
            done(text::stream_start() + s.content@ + text::stream_end()),
        ),
        Object::Reference(id) => done(reference_bytes(id)),
    }
}

/// The elements of an array, separated by a space where the next one needs it.
pub open spec fn items_piece(items: Seq<Object>) -> Piece
    decreases items, 0int,
{
    if items.len() == 0 {
        done(Seq::empty())
    } else {
        let last = items.last();
        then(
            items_piece(items.drop_last()),
            then(
                done(
                    if items.len() > 1 && need_separator(last) {
                        text::space()
                    } else {
                        Seq::empty()
                    },
                ),
                object_piece(last),
            ),
        )
    }
}

/// The entries of a dictionary: each key as a name, then its value.
pub open spec fn entries_piece(entries: Seq<(Vec<u8>, Object)>) -> Piece
    decreases entries, 0int,
{
    if entries.len() == 0 {
        done(Seq::empty())
    } else {
        let (key, value) = entries.last();
        then(
            entries_piece(entries.drop_last()),
            then(
                done(
                    name_bytes(key@) + if need_separator(value) {
                        text::space()
                    } else {
                        Seq::empty()
                    },
                ),
                object_piece(value),
            ),
        )
    }
}

/// A dictionary between `<<` and `>>`.
pub open spec fn dict_piece(entries: Seq<(Vec<u8>, Object)>) -> Piece
    decreases entries, 1int,
{
    then(then(done(text::open_dict()), entries_piece(entries)), done(text::close_dict()))
}

} // verus!
