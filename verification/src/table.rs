use vstd::prelude::*;

use crate::number::{
    be16, be32, dec, padded, push_all, push_be16, push_be32, push_dec, push_padded,
};
use crate::object::Object;
use crate::text;
use crate::xref::{max_id_of, Xref, XrefEntry, XrefSection};

verus! {

/// A section as its first object number and its entries.
pub type SectionView = (u32, Seq<XrefEntry>);

pub open spec fn section_view(s: XrefSection) -> SectionView {
    (s.starting_id, s.entries@)
}

pub open spec fn sections_view(v: Seq<XrefSection>) -> Seq<SectionView> {
    v.map_values(|s: XrefSection| section_view(s))
}

/// Groups the entries of the object numbers `1..=k` into sections of consecutive numbers,
/// after the section `init`: the sections finished so far, and the one still open, which
/// is empty when the last number had no entry.
pub open spec fn scan(m: Map<u32, XrefEntry>, k: nat, init: SectionView) -> (
    Seq<SectionView>,
    SectionView,
)
    decreases k,
{
    if k == 0 {
        (Seq::empty(), init)
    } else {
        let (finished, open) = scan(m, (k - 1) as nat, init);
        let id = k as u32;
        if m.contains_key(id) {
            if open.1.len() == 0 {
                (finished, (id, seq![m[id]]))
            } else {
                (finished, (open.0, open.1.push(m[id])))
            }
        } else if open.1.len() == 0 {
            (finished, open)
        } else {
            (finished.push(open), (0u32, Seq::empty()))
        }
    }
}

/// Every section for the object numbers up to `n`: the finished ones, then the open one
/// when it has entries.
pub open spec fn all_sections(m: Map<u32, XrefEntry>, n: nat, init: SectionView) -> Seq<
    SectionView,
> {
    let (finished, open) = scan(m, n, init);
    if open.1.len() > 0 {
        finished.push(open)
    } else {
        finished
    }
}

/// The entry of object 0 when it is a free entry.
pub open spec fn zero_entry(m: Map<u32, XrefEntry>) -> Option<XrefEntry> {
    if m.contains_key(0) && m[0] is Free {
        Some(m[0])
    } else {
        None
    }
}

/// The sections of a classic table. Object 0 always opens the first one: with its free
/// entry, or else with a free entry that can never be reused.
pub open spec fn table_sections(m: Map<u32, XrefEntry>) -> Seq<SectionView> {
    all_sections(m, max_id_of(m) as nat, (0u32, seq![table_first(m)]))
}

/// What a classic table lists for object 0.
pub open spec fn table_first(m: Map<u32, XrefEntry>) -> XrefEntry {
    match zero_entry(m) {
        Some(e) => e,
        None => XrefEntry::UnusableFree,
    }
}

/// What a cross-reference stream lists for object 0: its entry when it is free, else
/// nothing.
pub open spec fn stream_first(m: Map<u32, XrefEntry>) -> Seq<XrefEntry> {
    match zero_entry(m) {
        Some(e) => seq![e],
        None => Seq::empty(),
    }
}

/// The sections of a cross-reference stream. Object 0 is listed only with a free entry.
pub open spec fn stream_sections(m: Map<u32, XrefEntry>) -> Seq<SectionView> {
    all_sections(m, max_id_of(m) as nat, (0u32, stream_first(m)))
}

/// The 20-byte table line of an entry: ten digits of offset (or of the next free number),
/// five digits of generation, and `n` for an object in use or `f` for a free number. Only
/// in-use and free entries reach a table; any other entry reads as a free number that can
/// never be reused.
pub open spec fn entry_line(e: XrefEntry) -> Seq<u8> {
    match e {
        XrefEntry::Normal { offset, generation } => padded(offset as nat, 10) + text::space()
            + padded(generation as nat, 5) + text::in_use_suffix(),
        XrefEntry::Free { next_free, generation } => padded(next_free as nat, 10) + text::space()
            + padded(generation as nat, 5) + text::free_suffix(),
        _ => text::unusable_free_line(),
    }
}

/// The table lines of a run of entries.
pub open spec fn entry_lines(es: Seq<XrefEntry>) -> Seq<u8>
    decreases es.len(),
{
    if es.len() == 0 {
        Seq::empty()
    } else {
        entry_lines(es.drop_last()) + entry_line(es.last())
    }
}

/// A table section: its first object number and its number of entries on one line, then
/// one line per entry.
pub open spec fn section_text(s: SectionView) -> Seq<u8> {
    dec(s.0 as nat) + text::space() + dec(s.1.len()) + text::newline() + entry_lines(s.1)
}

pub open spec fn sections_text(ss: Seq<SectionView>) -> Seq<u8>
    decreases ss.len(),
{
    if ss.len() == 0 {
        Seq::empty()
    } else {
        sections_text(ss.drop_last()) + section_text(ss.last())
    }
}

/// A classic cross-reference table: the keyword `xref`, then its sections.
pub open spec fn table_bytes(m: Map<u32, XrefEntry>) -> Seq<u8> {
    text::xref_kw() + sections_text(table_sections(m))
}

/// The seven-byte record of an entry in a cross-reference stream: a type byte, four bytes
/// of field 2 and two of field 3, big-endian. A free number that can never be reused
/// records its own object number and generation 65535.
pub open spec fn entry_record(id: u32, e: XrefEntry) -> Seq<u8> {
    match e {
        XrefEntry::Free { next_free, generation } => seq![0u8] + be32(next_free) + be16(
            generation,
        ),
        XrefEntry::UnusableFree => seq![0u8] + be32(id) + be16(65535),
        XrefEntry::Normal { offset, generation } => seq![1u8] + be32(offset) + be16(generation),
        XrefEntry::Compressed { container, index } => seq![2u8] + be32(container) + be16(index),
        XrefEntry::Null => Seq::empty(),
    }
}

/// The records of a run of entries, the first one for object number `start`.
pub open spec fn entry_records(start: u32, es: Seq<XrefEntry>) -> Seq<u8>
    decreases es.len(),
{
    if es.len() == 0 {
        Seq::empty()
    } else {
        entry_records(start, es.drop_last()) + entry_record(
            (start + es.len() - 1) as u32,
            es.last(),
        )
    }
}

/// The data of a cross-reference stream: the records of every section in order.
pub open spec fn stream_records(ss: Seq<SectionView>) -> Seq<u8>
    decreases ss.len(),
{
    if ss.len() == 0 {
        Seq::empty()
    } else {
        stream_records(ss.drop_last()) + entry_records(ss.last().0, ss.last().1)
    }
}

/// The `Index` array of a cross-reference stream: the first object number and the number
/// of entries of every section.
pub open spec fn index_items(ss: Seq<SectionView>) -> Seq<Object>
    decreases ss.len(),
{
    if ss.len() == 0 {
        Seq::empty()
    } else {
        index_items(ss.drop_last()) + seq![
            Object::Integer(ss.last().0 as i64),
            Object::Integer(ss.last().1.len() as i64),
        ]
    }
}

/// Every section has entries and ends at an object number below `bound`.
pub open spec fn sections_fit(ss: Seq<SectionView>, bound: int) -> bool {
    forall|i: int|
        0 <= i < ss.len() ==> (#[trigger] ss[i]).1.len() > 0 && ss[i].0 + ss[i].1.len() <= bound
}

pub proof fn lemma_scan_fits(m: Map<u32, XrefEntry>, k: nat, init: SectionView)
    requires
        k <= u32::MAX,
        init.0 == 0,
        init.1.len() <= 1,
    ensures
        sections_fit(scan(m, k, init).0, k + 1int),
        scan(m, k, init).1.1.len() > 0 ==> scan(m, k, init).1.0 + scan(m, k, init).1.1.len() == k
            + 1,
    decreases k,
{
    if k > 0 {
        lemma_scan_fits(m, (k - 1) as nat, init);
    }
}

pub proof fn lemma_all_sections_fit(m: Map<u32, XrefEntry>, n: nat, init: SectionView)
    requires
        n <= u32::MAX,
        init.0 == 0,
        init.1.len() <= 1,
    ensures
        sections_fit(all_sections(m, n, init), n + 1int),
{
    lemma_scan_fits(m, n, init);
}

/// Every entry listed in `ss` is the entry of the object number it stands for: the first
/// entry of a section starting at 0 is `first`, any other the entry of its number in `m`,
/// a number no higher than `k`.
pub open spec fn listed_right(ss: Seq<SectionView>, m: Map<u32, XrefEntry>, first: Seq<XrefEntry>, k: int) -> bool {
    forall|i: int, j: int|
        0 <= i < ss.len() && 0 <= j < ss[i].1.len() ==> {
            let id = ss[i].0 + j;
            &&& id == 0 ==> j == 0 && ss[i].1[j] == first[0]
            &&& id > 0 ==> id <= k && entry_of(m, id) == Some(#[trigger] ss[i].1[j])
        }
}

/// The entry of object number `id` in `m`, where it has one.
pub open spec fn entry_of(m: Map<u32, XrefEntry>, id: int) -> Option<XrefEntry> {
    if 0 <= id <= u32::MAX && m.contains_key(id as u32) {
        Some(m[id as u32])
    } else {
        None
    }
}

/// The sections come in increasing order of object numbers and do not overlap.
pub open spec fn in_order(ss: Seq<SectionView>) -> bool {
    forall|a: int, b: int| 0 <= a < b < ss.len() ==> (#[trigger] ss[a]).0 + ss[a].1.len() <= (#[trigger] ss[b]).0
}

/// Object number `id` is listed in one of `ss`.
pub open spec fn listed(ss: Seq<SectionView>, id: int) -> bool {
    exists|i: int, j: int| 0 <= i < ss.len() && 0 <= j < ss[i].1.len() && #[trigger] (ss[i].0 + j) == id
}

/// The sections scanned so far, with the open one.
pub open spec fn scanned(m: Map<u32, XrefEntry>, k: nat, init: SectionView) -> Seq<SectionView> {
    let (finished, open) = scan(m, k, init);
    if open.1.len() > 0 {
        finished.push(open)
    } else {
        finished
    }
}

proof fn lemma_scan_lists(m: Map<u32, XrefEntry>, k: nat, init: SectionView)
    requires
        k <= u32::MAX,
        init.0 == 0,
        init.1.len() <= 1,
    ensures
        listed_right(scanned(m, k, init), m, init.1, k as int),
        in_order(scanned(m, k, init)),
        forall|id: u32| 1 <= id <= k && m.contains_key(id) ==> listed(scanned(m, k, init), id as int),
        init.1.len() == 1 ==> listed(scanned(m, k, init), 0),
        init.1.len() == 0 ==> forall|i: int|
            0 <= i < scanned(m, k, init).len() ==> (#[trigger] scanned(m, k, init)[i]).0 >= 1,
        init.1.len() == 0 && scan(m, k, init).1.1.len() > 0 ==> scan(m, k, init).1.0 >= 1,
        scan(m, k, init).1.1.len() == 0 ==> scan(m, k, init).1.0 == 0,
        forall|i: int| 0 <= i < scan(m, k, init).0.len() ==> (#[trigger] scan(m, k, init).0[i]).0
            + scan(m, k, init).0[i].1.len() <= k + 1,
        scan(m, k, init).1.1.len() > 0 ==> scan(m, k, init).1.0 + scan(m, k, init).1.1.len() == k + 1,
        forall|i: int| 0 <= i < scan(m, k, init).0.len() ==> (#[trigger] scan(m, k, init).0[i]).1.len() > 0,
    decreases k,
{
    lemma_scan_fits(m, k, init);
    if k == 0 {
        let ss = scanned(m, k, init);
        if init.1.len() == 1 {
            assert(ss == seq![init]);
            assert(ss[0].0 + 0 == 0);
            assert forall|i: int, j: int|
                0 <= i < ss.len() && 0 <= j < ss[i].1.len() implies #[trigger] ss[i].1[j] == init.1[0]
                && ss[i].0 + j == 0 by {
                assert(ss[i] == init);
            }
        } else {
            assert(ss.len() == 0);
        }
        assert(listed_right(ss, m, init.1, k as int));
    } else {
        let k1 = (k - 1) as nat;
        lemma_scan_lists(m, k1, init);
        lemma_scan_fits(m, k1, init);
        let (finished, open) = scan(m, k1, init);
        let before = scanned(m, k1, init);
        let after = scanned(m, k, init);
        let id = k as u32;
        if m.contains_key(id) {
            if open.1.len() == 0 {
                assert(after == finished.push((id, seq![m[id]])));
                assert(before == finished);
            } else {
                assert(after == finished.push((open.0, open.1.push(m[id]))));
                assert(before == finished.push(open));
            }
            if init.1.len() == 0 {
                assert forall|i: int| 0 <= i < after.len() implies (#[trigger] after[i]).0 >= 1 by {
                    if i < after.len() - 1 {
                        assert(after[i] == before[i]);
                    }
                }
            }
            assert forall|i: int, j: int|
                0 <= i < after.len() && 0 <= j < after[i].1.len() implies {
                    let x = after[i].0 + j;
                    &&& x == 0 ==> j == 0 && after[i].1[j] == init.1[0]
                    &&& x > 0 ==> x <= k && entry_of(m, x) == Some(#[trigger] after[i].1[j])
                } by {
                if i < after.len() - 1 || (open.1.len() > 0 && j < open.1.len()) {
                    assert(after[i].0 == before[i].0);
                    assert(after[i].1[j] == before[i].1[j]);
                    let y = before[i].1[j];
                } else {
                    assert(after[i].0 + j == k);
                    assert((after[i].0 + j) as u32 == id);
                    assert(m.contains_key((after[i].0 + j) as u32));
                    assert(after[i].1[j] == m[id]);
                }
            }
            assert forall|a: int, b: int| 0 <= a < b < after.len() implies (#[trigger] after[a]).0
                + after[a].1.len() <= (#[trigger] after[b]).0 by {
                assert(after[a] == before[a]);
                if b < after.len() - 1 {
                    assert(after[b] == before[b]);
                } else if open.1.len() > 0 {
                    assert(after[b].0 == before[b].0);
                } else {
                    assert(finished[a] == scan(m, k1, init).0[a]);
                    assert(finished[a].0 + finished[a].1.len() <= k);
                }
            }
            assert forall|x: u32| 1 <= x <= k && m.contains_key(x) implies listed(after, x as int) by {
                if x == id {
                    let i = after.len() - 1;
                    let j = after[i].1.len() - 1;
                    assert(after[i].0 + j == x);
                } else {
                    assert(listed(before, x as int));
                    let (i, j) = choose|i: int, j: int|
                        0 <= i < before.len() && 0 <= j < before[i].1.len() && #[trigger] (before[i].0 + j) == x;
                    assert(after[i].0 == before[i].0);
                    assert(after[i].0 + j == x);
                }
            }
            assert(listed_right(after, m, init.1, k as int));
            if init.1.len() == 1 {
                assert(listed(before, 0));
                let (i, j) = choose|i: int, j: int|
                    0 <= i < before.len() && 0 <= j < before[i].1.len() && #[trigger] (before[i].0 + j) == 0;
                assert(after[i].0 == before[i].0);
                assert(after[i].0 + j == 0);
            }
        } else {
            if open.1.len() == 0 {
                assert(after == before);
            } else {
                assert(after == finished.push(open));
                assert(before == finished.push(open));
            }
            if init.1.len() == 0 {
                assert forall|i: int| 0 <= i < after.len() implies (#[trigger] after[i]).0 >= 1 by {
                    assert(after[i] == before[i]);
                }
            }
            assert forall|i: int, j: int|
                0 <= i < after.len() && 0 <= j < after[i].1.len() implies {
                    let x = after[i].0 + j;
                    &&& x == 0 ==> j == 0 && after[i].1[j] == init.1[0]
                    &&& x > 0 ==> x <= k && entry_of(m, x) == Some(#[trigger] after[i].1[j])
                } by {
                assert(after[i] == before[i]);
                assert(listed_right(before, m, init.1, k1 as int));
                let y = before[i].1[j];
                assert(y == after[i].1[j]);
            }
            assert forall|x: u32| 1 <= x <= k && m.contains_key(x) implies listed(after, x as int) by {
                assert(listed(before, x as int));
            }
            assert(listed_right(after, m, init.1, k as int));
        }
    }
}

/// A cross-reference table or stream lists every object number that has an entry, up to
/// `n`, each at its place and with its own entry, in sections of increasing numbers that do
/// not overlap; object 0 heads the first section with what it contributes.
pub proof fn lemma_sections_locate(m: Map<u32, XrefEntry>, n: nat, init: SectionView)
    requires
        n <= u32::MAX,
        init.0 == 0,
        init.1.len() <= 1,
    ensures
        listed_right(all_sections(m, n, init), m, init.1, n as int),
        in_order(all_sections(m, n, init)),
        forall|id: u32| 1 <= id <= n && m.contains_key(id) ==> listed(all_sections(m, n, init), id as int),
        init.1.len() == 1 ==> listed(all_sections(m, n, init), 0),
        init.1.len() == 0 ==> !listed(all_sections(m, n, init), 0),
{
    lemma_scan_lists(m, n, init);
    let ss = all_sections(m, n, init);
    assert(ss == scanned(m, n, init));
    if init.1.len() == 0 && listed(ss, 0) {
        let (i, j) = choose|i: int, j: int| 0 <= i < ss.len() && 0 <= j < ss[i].1.len() && #[trigger] (ss[i].0 + j) == 0;
        assert(ss[i].0 >= 1);
    }
}

/// A cross-reference table lists every object number that has an entry, each at its place
/// and with its own entry, in sections of increasing numbers that do not overlap; object 0
/// is always listed, first. A cross-reference stream does the same, and lists object 0
/// exactly when its entry is free.
pub proof fn lemma_every_entry_listed(m: Map<u32, XrefEntry>)
    requires
        m.dom().finite(),
    ensures
        listed_right(table_sections(m), m, seq![table_first(m)], max_id_of(m) as int),
        in_order(table_sections(m)),
        forall|id: u32| #[trigger] m.contains_key(id) ==> listed(table_sections(m), id as int),
        listed(table_sections(m), 0),
        listed_right(stream_sections(m), m, stream_first(m), max_id_of(m) as int),
        in_order(stream_sections(m)),
        forall|id: u32|
            #[trigger] m.contains_key(id) && id > 0 ==> listed(stream_sections(m), id as int),
        listed(stream_sections(m), 0) <==> zero_entry(m) is Some,
{
    crate::xref::lemma_max_id_of(m);
    let n = max_id_of(m) as nat;
    lemma_sections_locate(m, n, (0u32, seq![table_first(m)]));
    lemma_sections_locate(m, n, (0u32, stream_first(m)));
}

/// The number of entries listed in `ss`.
pub open spec fn entry_count(ss: Seq<SectionView>) -> nat
    decreases ss.len(),
{
    if ss.len() == 0 {
        0
    } else {
        entry_count(ss.drop_last()) + ss.last().1.len()
    }
}

/// Whether no entry listed in `ss` is `Null`.
pub open spec fn none_null(ss: Seq<SectionView>) -> bool {
    forall|i: int, j: int| 0 <= i < ss.len() && 0 <= j < ss[i].1.len() ==> !((#[trigger] ss[i].1[j]) is Null)
}

proof fn lemma_entry_records_len(start: u32, es: Seq<XrefEntry>)
    requires
        forall|j: int| 0 <= j < es.len() ==> !((#[trigger] es[j]) is Null),
    ensures
        entry_records(start, es).len() == 7 * es.len(),
    decreases es.len(),
{
    if es.len() > 0 {
        lemma_entry_records_len(start, es.drop_last());
        assert(!(es[es.len() - 1] is Null));
    }
}

/// The data of a cross-reference stream holds one seven-byte record for each entry its
/// `Index` lists.
pub proof fn lemma_records_width(ss: Seq<SectionView>)
    requires
        none_null(ss),
    ensures
        stream_records(ss).len() == 7 * entry_count(ss),
    decreases ss.len(),
{
    if ss.len() > 0 {
        let shorter = ss.drop_last();
        assert forall|i: int, j: int| 0 <= i < shorter.len() && 0 <= j < shorter[i].1.len() implies !((
        #[trigger] shorter[i].1[j]) is Null) by {
            assert(shorter[i] == ss[i]);
        }
        lemma_records_width(shorter);
        let last = ss.last();
        assert forall|j: int| 0 <= j < last.1.len() implies !((#[trigger] last.1[j]) is Null) by {
            assert(ss[ss.len() - 1].1[j] == last.1[j]);
        }
        lemma_entry_records_len(last.0, last.1);
    }
}

impl XrefEntry {
    /// Appends the table line of this entry.
    pub fn write_xref_entry(&self, out: &mut Vec<u8>)
        ensures
            final(out)@ == old(out)@ + entry_line(*self),
    {
        let ghost start = out@;
        match *self {
            XrefEntry::Normal { offset, generation } => {
                push_padded(out, offset as u64, 10);
                out.push(32u8);
                push_padded(out, generation as u64, 5);
                push_all(out, text::in_use_suffix_bytes().as_slice());
            },
            XrefEntry::Free { next_free, generation } => {
                push_padded(out, next_free as u64, 10);
                out.push(32u8);
                push_padded(out, generation as u64, 5);
                push_all(out, text::free_suffix_bytes().as_slice());
            },
            _ => {
                push_all(out, text::unusable_free_line_bytes().as_slice());
            },
        }
        assert(out@ =~= start + entry_line(*self));
    }

    /// Appends the cross-reference stream record of this entry, for object number `id`.
    pub fn push_record(&self, id: u32, out: &mut Vec<u8>)
        ensures
            final(out)@ == old(out)@ + entry_record(id, *self),
    {
        let ghost start = out@;
        match *self {
            XrefEntry::Free { next_free, generation } => {
                out.push(0u8);
                push_be32(out, next_free);
                push_be16(out, generation);
            },
            XrefEntry::UnusableFree => {
                out.push(0u8);
                push_be32(out, id);
                push_be16(out, 65535u16);
            },
            XrefEntry::Normal { offset, generation } => {
                out.push(1u8);
                push_be32(out, offset);
                push_be16(out, generation);
            },
            XrefEntry::Compressed { container, index } => {
                out.push(2u8);
                push_be32(out, container);
                push_be16(out, index);
            },
            XrefEntry::Null => {},
        }
        assert(out@ =~= start + entry_record(id, *self));
    }
}

impl XrefSection {
    /// Appends this section as table text.
    pub fn write_xref_section(&self, out: &mut Vec<u8>)
        ensures
            final(out)@ == old(out)@ + section_text(section_view(*self)),
    {
        let ghost start = out@;
        push_dec(out, self.starting_id as u64);
        out.push(32u8);
        push_dec(out, self.entries.len() as u64);
        out.push(10u8);
        let ghost head = out@;
        let mut j: usize = 0;
        while j < self.entries.len()
            invariant
                j <= self.entries@.len(),
                out@ == head + entry_lines(self.entries@.take(j as int)),
            decreases self.entries@.len() - j,
        {
            assert(self.entries@.take(j + 1).drop_last() =~= self.entries@.take(j as int));
            self.entries[j].write_xref_entry(out);
            j = j + 1;
            assert(out@ =~= head + entry_lines(self.entries@.take(j as int)));
        }
        assert(self.entries@.take(j as int) =~= self.entries@);
        assert(out@ =~= start + section_text(section_view(*self)));
    }
}

/// Groups the entries of `xref` into sections of consecutive object numbers, after the
/// section `init` that holds what object 0 contributes.
pub fn collect_sections(xref: &Xref, init: XrefSection) -> (r: Vec<XrefSection>)
    ensures
        sections_view(r@) == all_sections(
            xref.entries@,
            max_id_of(xref.entries@) as nat,
            section_view(init),
        ),
{
    let ghost m = xref.entries@;
    let ghost first = section_view(init);
    let max = xref.max_id();
    let mut sections: Vec<XrefSection> = Vec::new();
    let mut open = init;
    let mut id: u64 = 1;
    proof {
        assert(sections_view(sections@) =~= Seq::<SectionView>::empty());
    }
    while id <= max as u64
        invariant
            1 <= id <= max as u64 + 1,
            m == xref.entries@,
            max == max_id_of(m),
            scan(m, (id - 1) as nat, first) == (sections_view(sections@), section_view(open)),
        decreases max as u64 + 1 - id,
    {
        let key = id as u32;
        let ghost done_before = sections_view(sections@);
        let ghost open_before = section_view(open);
        match xref.get(key) {
            Some(e) => {
                if open.is_empty() {
                    open = XrefSection::new(key);
                    open.add_entry(*e);
                    assert(section_view(open).1 =~= seq![m[key]]);
                } else {
                    open.add_entry(*e);
                }
            },
            None => {
                if !open.is_empty() {
                    sections.push(open);
                    open = XrefSection::new(0);
                    assert(sections_view(sections@) =~= done_before.push(open_before));
                    assert(section_view(open).1 =~= Seq::<XrefEntry>::empty());
                }
            },
        }
        id = id + 1;
    }
    let ghost done_before = sections_view(sections@);
    let ghost open_before = section_view(open);
    if !open.is_empty() {
        sections.push(open);
        assert(sections_view(sections@) =~= done_before.push(open_before));
    }
    sections
}

} // verus!
