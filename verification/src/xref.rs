use vstd::prelude::*;

verus! {

/// How the cross-reference data of a file is written.
#[derive(Debug, Clone, Copy, PartialEq, Eq, Structural)]
pub enum XrefType {
    /// A cross-reference stream object.
    CrossReferenceStream,
    /// A classic `xref` table followed by a `trailer` dictionary.
    CrossReferenceTable,
}

/// Where an object lives, or that its number is free.
#[derive(Debug, Clone, Copy, PartialEq, Eq, Structural)]
pub enum XrefEntry {
    /// A free object number: the next free number in the chain, and the generation it gets
    /// when reused.
    Free { next_free: u32, generation: u16 },
    /// A free object number that can never be reused.
    UnusableFree,
    /// An object at a byte offset in the file.
    Normal { offset: u32, generation: u16 },
    /// An object stored inside an object stream, at an index of that stream.
    Compressed { container: u32, index: u16 },
    /// An entry that carries no location; it has no serialized form.
    Null,
}

/// Whether the keys of a sequence of entries strictly increase.
pub open spec fn keys_increase(s: Seq<(u32, XrefEntry)>) -> bool {
    forall|i: int, j: int| 0 <= i < j < s.len() ==> (#[trigger] s[i]).0 < (#[trigger] s[j]).0
}

/// The map from keys to entries of a sequence of entries.
pub open spec fn entries_map(s: Seq<(u32, XrefEntry)>) -> Map<u32, XrefEntry>
    decreases s.len(),
{
    if s.len() == 0 {
        Map::empty()
    } else {
        entries_map(s.drop_last()).insert(s.last().0, s.last().1)
    }
}

pub proof fn lemma_entries_map(s: Seq<(u32, XrefEntry)>)
    requires
        keys_increase(s),
    ensures
        forall|k: u32| #[trigger]
            entries_map(s).contains_key(k) <==> exists|i: int| 0 <= i < s.len() && s[i].0 == k,
        forall|i: int| 0 <= i < s.len() ==> #[trigger] entries_map(s)[s[i].0] == s[i].1,
        forall|i: int| 0 <= i < s.len() ==> entries_map(s).contains_key(#[trigger] s[i].0),
    decreases s.len(),
{
    if s.len() > 0 {
        let p = s.drop_last();
        assert(keys_increase(p));
        lemma_entries_map(p);
        assert forall|k: u32| #[trigger]
            entries_map(s).contains_key(k) <==> exists|i: int| 0 <= i < s.len() && s[i].0 == k by {
            if entries_map(s).contains_key(k) && k != s.last().0 {
                assert(entries_map(p).contains_key(k));
                let i = choose|i: int| 0 <= i < p.len() && p[i].0 == k;
                assert(p[i] == s[i]);
                assert(s[i].0 == k);
            }
            if exists|i: int| 0 <= i < s.len() && s[i].0 == k {
                let i = choose|i: int| 0 <= i < s.len() && s[i].0 == k;
                if i < p.len() {
                    assert(p[i] == s[i]);
                    assert(p[i].0 == k);
                    assert(entries_map(p).contains_key(k));
                }
            }
        }
        assert forall|i: int| 0 <= i < s.len() implies #[trigger] entries_map(s)[s[i].0] == s[i].1 by {
            if i < p.len() {
                assert(p[i] == s[i]);
                assert(s[i].0 < s.last().0);
            }
        }
    }
}

/// The highest object number with an entry, or 0 when there is none.
pub open spec fn max_id_of(m: Map<u32, XrefEntry>) -> u32 {
    if exists|k: u32| m.contains_key(k) {
        choose|k: u32| m.contains_key(k) && forall|j: u32| m.contains_key(j) ==> j <= k
    } else {
        0
    }
}

/// In a finite map, no key is above `max_id_of`, and a nonempty map has that key.
pub proof fn lemma_max_id_of(m: Map<u32, XrefEntry>)
    requires
        m.dom().finite(),
    ensures
        forall|k: u32| #[trigger] m.contains_key(k) ==> k <= max_id_of(m),
        m.dom().len() > 0 ==> m.contains_key(max_id_of(m)),
{
    if m.dom().len() > 0 {
        let r = |a: u32, b: u32| a <= b;
        m.dom().find_unique_maximal_ensures(r);
        let c = m.dom().find_unique_maximal(r);
        assert(vstd::relations::is_maximal(r, c, m.dom()));
        assert forall|j: u32| m.contains_key(j) implies j <= c by {
            assert(r(c, j) ==> r(j, c));
        }
        assert(exists|k: u32| m.contains_key(k));
        let x = max_id_of(m);
        assert(m.contains_key(x) && forall|j: u32| m.contains_key(j) ==> j <= x);
    } else {
        assert forall|k: u32| #[trigger] m.contains_key(k) implies k <= max_id_of(m) by {
            assert(m.dom().contains(k));
        }
    }
}

/// Whether an entry marks its number free.
pub open spec fn is_free_kind(e: XrefEntry) -> bool {
    e is Free || e is UnusableFree
}

/// The highest object number with a free entry, or 0 when there is none.
pub open spec fn highest_free(m: Map<u32, XrefEntry>) -> u32 {
    if exists|k: u32| m.contains_key(k) && is_free_kind(m[k]) {
        choose|k: u32|
            m.contains_key(k) && is_free_kind(m[k]) && forall|j: u32|
                m.contains_key(j) && is_free_kind(m[j]) ==> j <= k
    } else {
        0
    }
}

/// Whether some entry is `Null`.
pub open spec fn has_null(m: Map<u32, XrefEntry>) -> bool {
    exists|k: u32| #[trigger] m.contains_key(k) && m[k] is Null
}

/// Whether some entry is `Compressed`.
pub open spec fn has_compressed(m: Map<u32, XrefEntry>) -> bool {
    exists|k: u32| #[trigger] m.contains_key(k) && m[k] is Compressed
}

/// Cross-reference entries keyed by object number, kept in increasing order.
#[derive(Debug)]
pub struct EntryMap {
    items: Vec<(u32, XrefEntry)>,
}

impl View for EntryMap {
    type V = Map<u32, XrefEntry>;

    closed spec fn view(&self) -> Map<u32, XrefEntry> {
        entries_map(self.items@)
    }
}

impl EntryMap {
    #[verifier::type_invariant]
    spec fn ordered(self) -> bool {
        keys_increase(self.items@)
    }

    /// The entries in increasing order of their keys.
    pub closed spec fn ordered_items(&self) -> Seq<(u32, XrefEntry)> {
        self.items@
    }

    /// The largest key, or 0 when there is none.
    pub open spec fn max_key_spec(&self) -> u32 {
        if self.ordered_items().len() == 0 {
            0
        } else {
            self.ordered_items().last().0
        }
    }

    /// What the ordered items say of the map.
    pub proof fn lemma_view(&self)
        requires
            keys_increase(self.ordered_items()),
        ensures
            keys_increase(self.ordered_items()),
            self@ == entries_map(self.ordered_items()),
            forall|k: u32| #[trigger]
                self@.contains_key(k) <==> exists|i: int|
                    0 <= i < self.ordered_items().len() && self.ordered_items()[i].0 == k,
            forall|i: int|
                0 <= i < self.ordered_items().len() ==> #[trigger] self@[self.ordered_items()[i].0]
                    == self.ordered_items()[i].1,
            forall|k: u32| #[trigger] self@.contains_key(k) ==> k <= self.max_key_spec(),
            self.ordered_items().len() > 0 ==> self@.contains_key(self.max_key_spec()),
            self.ordered_items().len() == 0 ==> self@ == Map::<u32, XrefEntry>::empty(),
    {
        lemma_entries_map(self.items@);
        let s = self.items@;
        if s.len() > 0 {
            assert(self@.contains_key(s[s.len() - 1].0));
        }
        assert forall|k: u32| #[trigger] self@.contains_key(k) implies k <= self.max_key_spec() by {
            let i = choose|i: int| 0 <= i < s.len() && s[i].0 == k;
            if i < s.len() - 1 {
                assert(s[i].0 < s[s.len() - 1].0);
            }
        }
        if s.len() == 0 {
            assert(self@ =~= Map::<u32, XrefEntry>::empty());
        }
    }

    /// An empty map.
    pub fn new() -> (m: EntryMap)
        ensures
            m@ == Map::<u32, XrefEntry>::empty(),
    {
        EntryMap { items: Vec::new() }
    }

    /// The entries in increasing order of their keys.
    pub fn items(&self) -> (r: &Vec<(u32, XrefEntry)>)
        ensures
            r@ == self.ordered_items(),
    {
        &self.items
    }

    /// The number of entries.
    pub fn len(&self) -> (n: usize)
        ensures
            n == self@.len(),
            n == self.ordered_items().len(),
    {
        proof {
            use_type_invariant(self);
            lemma_entries_map(self.items@);
            lemma_distinct_keys_len(self.items@);
        }
        self.items.len()
    }

    /// The first position whose key is at least `id`.
    fn lower_bound(&self, id: u32) -> (p: usize)
        ensures
            p <= self.items@.len(),
            forall|i: int| 0 <= i < p ==> self.items@[i].0 < id,
            forall|i: int| p <= i < self.items@.len() ==> self.items@[i].0 >= id,
    {
        proof {
            use_type_invariant(self);
        }
        let mut lo: usize = 0;
        let mut hi: usize = self.items.len();
        while lo < hi
            invariant
                0 <= lo <= hi <= self.items@.len(),
                keys_increase(self.items@),
                forall|i: int| 0 <= i < lo ==> self.items@[i].0 < id,
                forall|i: int| hi <= i < self.items@.len() ==> self.items@[i].0 >= id,
            decreases hi - lo,
        {
            let mid = lo + (hi - lo) / 2;
            if self.items[mid].0 < id {
                lo = mid + 1;
            } else {
                hi = mid;
            }
        }
        lo
    }

    /// The entry under `id`.
    pub fn get(&self, id: u32) -> (r: Option<&XrefEntry>)
        ensures
            r matches Some(e) ==> self@.contains_key(id) && self@[id] == *e,
            r is None ==> !self@.contains_key(id),
    {
        proof {
            use_type_invariant(self);
            self.lemma_view();
        }
        let p = self.lower_bound(id);
        if p < self.items.len() && self.items[p].0 == id {
            Some(&self.items[p].1)
        } else {
            proof {
                if self@.contains_key(id) {
                    let i = choose|i: int| 0 <= i < self.items@.len() && self.items@[i].0 == id;
                    if i > p {
                        assert(self.items@[p as int].0 < self.items@[i].0);
                    }
                }
            }
            None
        }
    }

    /// Sets the entry under `id`.
    pub fn insert(&mut self, id: u32, entry: XrefEntry)
        ensures
            final(self)@ == old(self)@.insert(id, entry),
    {
        proof {
            use_type_invariant(&*self);
        }
        let p = self.lower_bound(id);
        let ghost s = self.items@;
        let mut items = Vec::new();
        std::mem::swap(&mut items, &mut self.items);
        let replace = p < items.len() && items[p].0 == id;
        if replace {
            items.set(p, (id, entry));
        } else {
            items.insert(p, (id, entry));
        }
        proof {
            lemma_insert_at(s, items@, p as int, id, entry, replace);
        }
        self.items = items;
    }

    /// Whether some entry is `Null`.
    pub fn any_null(&self) -> (r: bool)
        ensures
            r == has_null(self@),
    {
        proof {
            use_type_invariant(self);
            self.lemma_view();
        }
        let mut i: usize = 0;
        while i < self.items.len()
            invariant
                i <= self.items@.len(),
                keys_increase(self.items@),
                self@ == entries_map(self.items@),
                forall|j: int| 0 <= j < i ==> !(self.items@[j].1 is Null),
            decreases self.items@.len() - i,
        {
            if matches!(self.items[i].1, XrefEntry::Null) {
                proof {
                    lemma_entries_map(self.items@);
                    assert(self@[self.items@[i as int].0] == self.items@[i as int].1);
                }
                return true;
            }
            i = i + 1;
        }
        proof {
            lemma_entries_map(self.items@);
            if exists|k: u32| #[trigger] self@.contains_key(k) && self@[k] is Null {
                let k = choose|k: u32| #[trigger] self@.contains_key(k) && self@[k] is Null;
                let j = choose|j: int| 0 <= j < self.items@.len() && self.items@[j].0 == k;
                assert(self@[self.items@[j].0] == self.items@[j].1);
            }
        }
        false
    }

    /// Whether some entry is `Compressed`.
    pub fn any_compressed(&self) -> (r: bool)
        ensures
            r == has_compressed(self@),
    {
        proof {
            use_type_invariant(self);
            self.lemma_view();
        }
        let mut i: usize = 0;
        while i < self.items.len()
            invariant
                i <= self.items@.len(),
                keys_increase(self.items@),
                self@ == entries_map(self.items@),
                forall|j: int| 0 <= j < i ==> !(self.items@[j].1 is Compressed),
            decreases self.items@.len() - i,
        {
            if matches!(self.items[i].1, XrefEntry::Compressed { .. }) {
                proof {
                    lemma_entries_map(self.items@);
                    assert(self@[self.items@[i as int].0] == self.items@[i as int].1);
                }
                return true;
            }
            i = i + 1;
        }
        proof {
            lemma_entries_map(self.items@);
            if exists|k: u32| #[trigger] self@.contains_key(k) && self@[k] is Compressed {
                let k = choose|k: u32| #[trigger] self@.contains_key(k) && self@[k] is Compressed;
                let j = choose|j: int| 0 <= j < self.items@.len() && self.items@[j].0 == k;
                assert(self@[self.items@[j].0] == self.items@[j].1);
            }
        }
        false
    }

    /// The highest object number with a free entry, or 0 when there is none.
    pub fn highest_free(&self) -> (k: u32)
        ensures
            k == highest_free(self@),
    {
        proof {
            use_type_invariant(self);
            self.lemma_view();
        }
        let mut best: u32 = 0;
        let mut found = false;
        let mut i: usize = 0;
        while i < self.items.len()
            invariant
                i <= self.items@.len(),
                keys_increase(self.items@),
                found ==> exists|j: int|
                    0 <= j < i && self.items@[j].0 == best && is_free_kind(self.items@[j].1),
                found ==> forall|j: int|
                    0 <= j < i && is_free_kind(self.items@[j].1) ==> self.items@[j].0 <= best,
                !found ==> forall|j: int| 0 <= j < i ==> !is_free_kind(self.items@[j].1),
                !found ==> best == 0,
            decreases self.items@.len() - i,
        {
            if matches!(self.items[i].1, XrefEntry::Free { .. } | XrefEntry::UnusableFree) {
                best = self.items[i].0;
                found = true;
                assert forall|j: int|
                    0 <= j < i + 1 && is_free_kind(self.items@[j].1) implies self.items@[j].0
                    <= best by {
                    if j < i {
                        assert(self.items@[j].0 < self.items@[i as int].0);
                    }
                }
            }
            i = i + 1;
        }
        proof {
            let m = self@;
            let s = self.items@;
            lemma_entries_map(s);
            if found {
                let j = choose|j: int| 0 <= j < s.len() && s[j].0 == best && is_free_kind(s[j].1);
                assert(m.contains_key(best) && m[best] == s[j].1);
                assert forall|k: u32| m.contains_key(k) && is_free_kind(m[k]) implies k <= best by {
                    let t = choose|t: int| 0 <= t < s.len() && s[t].0 == k;
                    assert(m[s[t].0] == s[t].1);
                }
                let c = choose|c: u32|
                    m.contains_key(c) && is_free_kind(m[c]) && forall|j2: u32|
                        m.contains_key(j2) && is_free_kind(m[j2]) ==> j2 <= c;
                assert(c <= best && best <= c);
            } else {
                assert forall|k: u32| m.contains_key(k) implies !is_free_kind(m[k]) by {
                    let t = choose|t: int| 0 <= t < s.len() && s[t].0 == k;
                    assert(m[s[t].0] == s[t].1);
                }
            }
        }
        best
    }

    /// The largest key, or 0 when there is none.
    pub fn max_key(&self) -> (k: u32)
        ensures
            k == self.max_key_spec(),
            k == max_id_of(self@),
            forall|id: u32| #[trigger] self@.contains_key(id) ==> id <= k,
            self@.len() > 0 ==> self@.contains_key(k),
    {
        proof {
            use_type_invariant(self);
            self.lemma_view();
            lemma_distinct_keys_len(self.items@);
            let k = self.max_key_spec();
            if self.items@.len() > 0 {
                assert(self@.contains_key(k) && forall|j: u32| self@.contains_key(j) ==> j <= k);
                let c = choose|c: u32| self@.contains_key(c) && forall|j: u32| self@.contains_key(j) ==> j <= c;
                assert(c <= k && k <= c);
            } else {
                assert(!exists|c: u32| self@.contains_key(c));
            }
        }
        if self.items.len() == 0 {
            0
        } else {
            self.items[self.items.len() - 1].0
        }
    }
}

/// Placing an entry at its lower bound keeps the keys increasing and updates the map.
proof fn lemma_insert_at(
    s: Seq<(u32, XrefEntry)>,
    t: Seq<(u32, XrefEntry)>,
    p: int,
    id: u32,
    entry: XrefEntry,
    replace: bool,
)
    requires
        keys_increase(s),
        0 <= p <= s.len(),
        forall|i: int| 0 <= i < p ==> s[i].0 < id,
        forall|i: int| p <= i < s.len() ==> s[i].0 >= id,
        replace == (p < s.len() && s[p].0 == id),
        replace ==> t == s.update(p, (id, entry)),
        !replace ==> t == s.insert(p, (id, entry)),
    ensures
        keys_increase(t),
        entries_map(t) == entries_map(s).insert(id, entry),
{
    assert forall|i: int, j: int| 0 <= i < j < t.len() implies (#[trigger] t[i]).0 < (
    #[trigger] t[j]).0 by {
        if !replace {
            if i < p && j > p {
                assert(t[j] == s[j - 1]);
            } else if i > p {
                assert(t[i] == s[i - 1] && t[j] == s[j - 1]);
            } else if i == p {
                assert(t[j] == s[j - 1]);
            }
        }
    }
    lemma_entries_map(s);
    lemma_entries_map(t);
    let m = entries_map(s).insert(id, entry);
    assert forall|k: u32| #[trigger] entries_map(t).contains_key(k) == m.contains_key(k) by {
        if entries_map(t).contains_key(k) && k != id {
            let i = choose|i: int| 0 <= i < t.len() && t[i].0 == k;
            if replace || i < p {
                assert(s[i].0 == k);
            } else {
                assert(s[i - 1].0 == k);
            }
        }
        if entries_map(s).contains_key(k) {
            let i = choose|i: int| 0 <= i < s.len() && s[i].0 == k;
            if replace || i < p {
                assert(t[i].0 == k);
            } else {
                assert(t[i + 1].0 == k);
            }
        }
        if k == id {
            assert(t[p].0 == k);
        }
    }
    assert forall|k: u32| #[trigger] entries_map(t).contains_key(k) implies entries_map(t)[k]
        == m[k] by {
        let i = choose|i: int| 0 <= i < t.len() && t[i].0 == k;
        if k != id {
            if replace || i < p {
                assert(s[i] == t[i]);
            } else {
                assert(s[i - 1] == t[i]);
            }
        } else {
            assert(t[p] == (id, entry));
            if i != p {
                if i < p {
                    assert(t[i].0 < t[p].0);
                } else {
                    assert(t[p].0 < t[i].0);
                }
            }
        }
    }
    assert(entries_map(t) =~= m);
}

/// With distinct keys, the map has one entry per item.
pub proof fn lemma_distinct_keys_len(s: Seq<(u32, XrefEntry)>)
    requires
        keys_increase(s),
    ensures
        entries_map(s).len() == s.len(),
        entries_map(s).dom().finite(),
    decreases s.len(),
{
    if s.len() > 0 {
        let p = s.drop_last();
        assert(keys_increase(p));
        lemma_distinct_keys_len(p);
        lemma_entries_map(p);
        if entries_map(p).contains_key(s.last().0) {
            let i = choose|i: int| 0 <= i < p.len() && p[i].0 == s.last().0;
            assert(s[i].0 < s[s.len() - 1].0);
        }
    }
}

/// A cross-reference section: entries for consecutive object numbers from `starting_id`.
#[derive(Debug)]
pub struct XrefSection {
    pub starting_id: u32,
    pub entries: Vec<XrefEntry>,
}

impl XrefSection {
    /// An empty section starting at `starting_id`.
    pub fn new(starting_id: u32) -> (s: XrefSection)
        ensures
            s.starting_id == starting_id,
            s.entries@ == Seq::<XrefEntry>::empty(),
    {
        XrefSection { starting_id, entries: Vec::new() }
    }

    /// Appends an entry.
    pub fn add_entry(&mut self, entry: XrefEntry)
        ensures
            final(self).starting_id == old(self).starting_id,
            final(self).entries@ == old(self).entries@.push(entry),
    {
        self.entries.push(entry);
    }

    /// Appends an entry that can never be reused.
    pub fn add_unusable_free_entry(&mut self)
        ensures
            final(self).starting_id == old(self).starting_id,
            final(self).entries@ == old(self).entries@.push(XrefEntry::UnusableFree),
    {
        self.entries.push(XrefEntry::UnusableFree);
    }

    /// Whether the section has no entry.
    pub fn is_empty(&self) -> (r: bool)
        ensures
            r == (self.entries@.len() == 0),
    {
        self.entries.len() == 0
    }
}

/// The cross-reference entries of a file being written, and how they are written.
#[derive(Debug)]
pub struct Xref {
    pub cross_reference_type: XrefType,
    pub entries: EntryMap,
    /// The `Size` the trailer declares: one past the highest object number.
    pub size: u32,
}

impl Xref {
    /// No entries yet.
    pub fn new(size: u32, xref_type: XrefType) -> (x: Xref)
        ensures
            x.entries@ == Map::<u32, XrefEntry>::empty(),
            x.size == size,
            x.cross_reference_type == xref_type,
    {
        Xref { cross_reference_type: xref_type, entries: EntryMap::new(), size }
    }

    /// The entry under `id`.
    pub fn get(&self, id: u32) -> (r: Option<&XrefEntry>)
        ensures
            r matches Some(e) ==> self.entries@.contains_key(id) && self.entries@[id] == *e,
            r is None ==> !self.entries@.contains_key(id),
    {
        self.entries.get(id)
    }

    /// Sets the entry under `id`.
    pub fn insert(&mut self, id: u32, entry: XrefEntry)
        ensures
            final(self).entries@ == old(self).entries@.insert(id, entry),
            final(self).size == old(self).size,
            final(self).cross_reference_type == old(self).cross_reference_type,
    {
        self.entries.insert(id, entry);
    }

    /// The highest object number with an entry, or 0 when there is none.
    pub fn max_id(&self) -> (k: u32)
        ensures
            k == self.entries.max_key_spec(),
            k == max_id_of(self.entries@),
            forall|id: u32| #[trigger] self.entries@.contains_key(id) ==> id <= k,
            self.entries@.len() > 0 ==> self.entries@.contains_key(k),
    {
        self.entries.max_key()
    }
}

} // verus!
