use vstd::prelude::*;

use crate::document::Document;
use crate::xref::{highest_free, max_id_of, Xref, XrefEntry};

verus! {

/// The entry under `id`, if any.
pub open spec fn lookup(m: Map<u32, XrefEntry>, id: u32) -> Option<XrefEntry> {
    if m.contains_key(id) {
        Some(m[id])
    } else {
        None
    }
}

/// Whether `id` locates an object: an in-use or a compressed entry.
pub open spec fn is_live(m: Map<u32, XrefEntry>, id: u32) -> bool {
    m.contains_key(id) && (m[id] is Normal || m[id] is Compressed)
}

/// The generation that a number not written by a full rewrite gets, from what the
/// document's own table says of it: a free entry keeps its generation; a number that can
/// never be reused, or has no location, gets 65535; a removed object's number gets the
/// next generation (65535 stays); a removed member of an object stream gets 1; a number
/// the table never mentions gets 0.
pub open spec fn freed_generation(prev: Option<XrefEntry>) -> u16 {
    match prev {
        Some(XrefEntry::Free { generation, .. }) => generation,
        Some(XrefEntry::UnusableFree) => 65535,
        Some(XrefEntry::Null) => 65535,
        Some(XrefEntry::Normal { generation, .. }) => if generation == 65535 {
            65535
        } else {
            (generation + 1) as u16
        },
        Some(XrefEntry::Compressed { .. }) => 1,
        None => 0,
    }
}

/// Whether `id` can be handed out again: it locates no object in the output, and its
/// generation has not reached 65535.
pub open spec fn reusable(written: Map<u32, XrefEntry>, table: Map<u32, XrefEntry>, id: u32) -> bool {
    !is_live(written, id) && freed_generation(lookup(table, id)) < 65535
}

/// The lowest reusable number in `lo..=hi`, or 0 when there is none.
pub open spec fn next_reusable(
    written: Map<u32, XrefEntry>,
    table: Map<u32, XrefEntry>,
    lo: int,
    hi: int,
) -> u32
    decreases hi + 1 - lo,
{
    if lo > hi {
        0
    } else if reusable(written, table, lo as u32) {
        lo as u32
    } else {
        next_reusable(written, table, lo + 1, hi)
    }
}

/// The free entry of a number not written by a full rewrite that goes up to `hi`: its
/// generation, and, when it is reusable, the next reusable number after it.
pub open spec fn free_entry(
    written: Map<u32, XrefEntry>,
    table: Map<u32, XrefEntry>,
    id: u32,
    hi: u32,
) -> XrefEntry {
    let generation = freed_generation(lookup(table, id));
    XrefEntry::Free {
        next_free: if generation < 65535 {
            next_reusable(written, table, id + 1, hi as int)
        } else {
            0
        },
        generation,
    }
}

/// The entries of a full rewrite up to `hi`: object 0 heads the chain of reusable numbers
/// with generation 65535, the written objects keep their entries, and every other number
/// gets its free entry.
#[verifier::opaque]
pub open spec fn normalized(written: Map<u32, XrefEntry>, table: Map<u32, XrefEntry>, hi: u32) -> Map<
    u32,
    XrefEntry,
> {
    Map::new(
        |id: u32| id <= hi,
        |id: u32|
            if id == 0 {
                XrefEntry::Free {
                    next_free: next_reusable(written, table, 1, hi as int),
                    generation: 65535,
                }
            } else if is_live(written, id) {
                written[id]
            } else {
                free_entry(written, table, id, hi)
            },
    )
}

/// The highest object number a full rewrite covers: the document's highest number, the
/// highest written number and the highest number its own table marks free.
#[verifier::opaque]
pub open spec fn full_save_max(max_id: u32, written: Map<u32, XrefEntry>, table: Map<u32, XrefEntry>) -> u32 {
    let a = if max_id_of(written) > max_id {
        max_id_of(written)
    } else {
        max_id
    };
    if highest_free(table) > a {
        highest_free(table)
    } else {
        a
    }
}

/// The highest number a full rewrite covers is at least each of the three it comes from,
/// and is one of them.
pub proof fn lemma_full_save_max(max_id: u32, written: Map<u32, XrefEntry>, table: Map<u32, XrefEntry>)
    ensures
        full_save_max(max_id, written, table) >= max_id,
        full_save_max(max_id, written, table) >= max_id_of(written),
        full_save_max(max_id, written, table) >= highest_free(table),
        full_save_max(max_id, written, table) == max_id || full_save_max(max_id, written, table)
            == max_id_of(written) || full_save_max(max_id, written, table) == highest_free(table),
{
    reveal(full_save_max);
}

/// The entries after the numbers above `id`, up to `hi`, got their full-rewrite entries.
pub open spec fn normalized_above(
    written: Map<u32, XrefEntry>,
    table: Map<u32, XrefEntry>,
    hi: u32,
    id: u32,
) -> Map<u32, XrefEntry> {
    Map::new(
        |j: u32| written.contains_key(j) || (id < j <= hi),
        |j: u32|
            if id < j <= hi && !is_live(written, j) {
                free_entry(written, table, j, hi)
            } else {
                written[j]
            },
    )
}

/// What the lowest reusable number of a range is.
pub proof fn lemma_next_reusable(
    written: Map<u32, XrefEntry>,
    table: Map<u32, XrefEntry>,
    lo: int,
    hi: int,
)
    requires
        1 <= lo,
        hi <= u32::MAX,
    ensures
        next_reusable(written, table, lo, hi) != 0 ==> {
            let r = next_reusable(written, table, lo, hi);
            &&& lo <= r <= hi
            &&& reusable(written, table, r)
            &&& forall|j: u32| lo <= j < r ==> !#[trigger] reusable(written, table, j)
        },
        next_reusable(written, table, lo, hi) == 0 ==> forall|j: u32|
            lo <= j <= hi ==> !#[trigger] reusable(written, table, j),
    decreases hi + 1 - lo,
{
    if lo <= hi && !reusable(written, table, lo as u32) {
        lemma_next_reusable(written, table, lo + 1, hi);
    }
}

/// In a full rewrite the free entries chain every reusable number in increasing order:
/// object 0 leads to the lowest one, each one to the next, the last one to 0, and no
/// reusable number is skipped. A number that cannot be reused points to 0.
pub proof fn lemma_free_chain_ascending(
    written: Map<u32, XrefEntry>,
    table: Map<u32, XrefEntry>,
    hi: u32,
    id: u32,
)
    requires
        id <= hi,
    ensures
        ({
            let m = normalized(written, table, hi);
            let start = if id == 0 { 1 } else { id + 1 };
            m[id] matches XrefEntry::Free { next_free, generation } ==> {
                &&& (id == 0 || generation < 65535) ==> {
                    &&& next_free == 0 || (id < next_free <= hi && reusable(written, table, next_free))
                    &&& forall|j: u32|
                        start <= j <= hi && (next_free == 0 || j < next_free) ==> !#[trigger] reusable(
                            written,
                            table,
                            j,
                        )
                }
                &&& (id != 0 && generation == 65535) ==> next_free == 0
            }
        }),
{
    reveal(normalized);
    let start: int = if id == 0 { 1 } else { id + 1 };
    lemma_next_reusable(written, table, start, hi as int);
}

/// In a full rewrite, a number the output does not locate is free with the generation its
/// old entry calls for; a located one keeps its entry.
pub proof fn lemma_free_generations(
    written: Map<u32, XrefEntry>,
    table: Map<u32, XrefEntry>,
    hi: u32,
    id: u32,
)
    requires
        1 <= id <= hi,
    ensures
        is_live(written, id) ==> normalized(written, table, hi)[id] == written[id],
        !is_live(written, id) ==> (normalized(written, table, hi)[id] matches XrefEntry::Free {
            generation,
            ..
        } && generation == freed_generation(lookup(table, id))),
        normalized(written, table, hi).contains_key(id),
{
    reveal(normalized);
}

impl Document {
    /// Rebuilds the free list of a full rewrite: every number up to the highest one in
    /// use, written, or marked free by the document's table gets an entry, the written
    /// objects keep theirs, the others become free with the generation their old entry
    /// calls for, and object 0 heads the chain of reusable numbers in increasing order.
    /// The size becomes one past that highest number.
    pub fn normalize_full_save_xref(&self, xref: &mut Xref)
        requires
            full_save_max(self.max_id, old(xref).entries@, self.reference_table.entries@)
                < u32::MAX,
        ensures
            final(xref).entries@ == normalized(
                old(xref).entries@,
                self.reference_table.entries@,
                full_save_max(self.max_id, old(xref).entries@, self.reference_table.entries@),
            ),
            final(xref).size == full_save_max(
                self.max_id,
                old(xref).entries@,
                self.reference_table.entries@,
            ) + 1,
            final(xref).cross_reference_type == old(xref).cross_reference_type,
    {
        let ghost w = xref.entries@;
        let ghost t = self.reference_table.entries@;
        let highest = self.reference_table.entries.highest_free();
        let written_max = xref.max_id();
        let mut output_max = self.max_id;
        if written_max > output_max {
            output_max = written_max;
        }
        if highest > output_max {
            output_max = highest;
        }
        assert(output_max == full_save_max(self.max_id, w, t)) by {
            reveal(full_save_max);
        }
        let mut next_free: u32 = 0;
        let mut id: u32 = output_max;
        assert(xref.entries@ =~= normalized_above(w, t, output_max, id));
        while id >= 1
            invariant
                id <= output_max < u32::MAX,
                written_max == max_id_of(w),
                written_max <= output_max,
                forall|k: u32| #[trigger] w.contains_key(k) ==> k <= written_max,
                t == self.reference_table.entries@,
                next_free == next_reusable(w, t, id + 1, output_max as int),
                xref.entries@ == normalized_above(w, t, output_max, id),
                xref.size == old(xref).size,
                xref.cross_reference_type == old(xref).cross_reference_type,
            decreases id,
        {
            let ghost before = xref.entries@;
            let live = match xref.get(id) {
                Some(XrefEntry::Normal { .. }) => true,
                Some(XrefEntry::Compressed { .. }) => true,
                _ => false,
            };
            assert(live == is_live(w, id));
            if !live {
                let generation: u16 = match self.reference_table.get(id) {
                    Some(XrefEntry::Free { generation, .. }) => *generation,
                    Some(XrefEntry::UnusableFree) => 65535,
                    Some(XrefEntry::Null) => 65535,
                    Some(XrefEntry::Normal { generation, .. }) => {
                        if *generation == 65535 {
                            65535
                        } else {
                            *generation + 1
                        }
                    },
                    Some(XrefEntry::Compressed { .. }) => 1,
                    None => 0,
                };
                assert(generation == freed_generation(lookup(t, id)));
                let reusable = generation < 65535;
                xref.insert(
                    id,
                    XrefEntry::Free { next_free: if reusable { next_free } else { 0 }, generation },
                );
                if reusable {
                    next_free = id;
                }
            }
            assert(xref.entries@ =~= normalized_above(w, t, output_max, (id - 1) as u32));
            id = id - 1;
        }
        xref.insert(0, XrefEntry::Free { next_free, generation: 65535 });
        xref.size = output_max + 1;
        reveal(normalized);
        assert(xref.entries@ =~= normalized(w, t, output_max));
    }
}

} // verus!
