use pdfwrite::document::Document;
use pdfwrite::object::{Dictionary, Object, Stream};
use pdfwrite::save_options::{ObjectStreamConfig, SaveOptions};
use pdfwrite::xref::{Xref, XrefEntry, XrefType};
use std::collections::{BTreeMap, BTreeSet};

// ---------------------------------------------------------------------------
// A small reader of what a save writes: the cross-reference data the footer
// points at, and the objects it locates, directly or inside object streams.
// ---------------------------------------------------------------------------

struct Loaded {
    entries: BTreeMap<u32, XrefEntry>,
    size: i64,
    /// The text of every object the cross-reference data locates.
    objects: BTreeMap<(u32, u16), Vec<u8>>,
    /// Object streams: their number and their `N`.
    object_streams: BTreeMap<u32, usize>,
}

impl Loaded {
    fn max_id(&self) -> u32 {
        *self.entries.keys().next_back().unwrap()
    }

    fn get(&self, id: u32) -> Option<&XrefEntry> {
        self.entries.get(&id)
    }

    fn value(&self, id: (u32, u16)) -> i64 {
        let text = std::str::from_utf8(&self.objects[&id]).unwrap().trim().to_string();
        let rest = match text.find("/Value") {
            Some(at) => text[at + 6..].trim_start().to_string(),
            None => text,
        };
        let digits: String = rest.chars().take_while(|c| c.is_ascii_digit() || *c == '-').collect();
        digits.parse().unwrap()
    }
}

fn find(haystack: &[u8], needle: &[u8]) -> Option<usize> {
    haystack.windows(needle.len()).position(|window| window == needle)
}

fn rfind(haystack: &[u8], needle: &[u8]) -> Option<usize> {
    haystack.windows(needle.len()).rposition(|window| window == needle)
}

fn number_after(text: &[u8], key: &[u8]) -> i64 {
    let at = find(text, key).unwrap() + key.len();
    let rest = std::str::from_utf8(&text[at..]).unwrap().trim_start();
    let digits: String = rest.chars().take_while(|c| c.is_ascii_digit() || *c == '-').collect();
    digits.parse().unwrap()
}

fn numbers(text: &str) -> Vec<u64> {
    text.split(|c: char| !c.is_ascii_digit()).filter(|t| !t.is_empty()).map(|t| t.parse().unwrap()).collect()
}

fn startxref(bytes: &[u8]) -> usize {
    let marker = b"startxref\n";
    let start = rfind(bytes, marker).unwrap() + marker.len();
    std::str::from_utf8(&bytes[start..]).unwrap().lines().next().unwrap().parse().unwrap()
}

/// The dictionary text and the data of the stream object at `offset`.
fn stream_at(bytes: &[u8], offset: usize) -> (Vec<u8>, Vec<u8>) {
    let tail = &bytes[offset..];
    let begin = find(tail, b"stream\n").unwrap();
    let dict = tail[..begin].to_vec();
    let length = number_after(&dict, b"/Length") as usize;
    let data = tail[begin + 7..begin + 7 + length].to_vec();
    (dict, data)
}

/// The value of the indirect object at `offset`.
fn direct_at(bytes: &[u8], offset: usize) -> Vec<u8> {
    let tail = &bytes[offset..];
    let begin = find(tail, b" obj\n").unwrap() + 5;
    let end = find(tail, b"endobj").unwrap();
    tail[begin..end].to_vec()
}

fn load(bytes: &[u8]) -> Loaded {
    let offset = startxref(bytes);
    let tail = &bytes[offset..];
    let mut entries = BTreeMap::new();
    let size;
    if tail.starts_with(b"xref\n") {
        let text = std::str::from_utf8(tail).unwrap();
        let mut lines = text.lines().skip(1);
        loop {
            let header = lines.next().unwrap();
            if header == "trailer" {
                break;
            }
            let fields = numbers(header);
            for k in 0..fields[1] as u32 {
                let line = lines.next().unwrap();
                let offset: u32 = line[0..10].parse().unwrap();
                let generation: u16 = line[11..16].parse().unwrap();
                let entry = if line.as_bytes()[17] == b'n' {
                    XrefEntry::Normal { offset, generation }
                } else {
                    XrefEntry::Free { next_free: offset, generation }
                };
                entries.insert(fields[0] as u32 + k, entry);
            }
        }
        let trailer = &tail[find(tail, b"trailer\n").unwrap()..];
        size = number_after(trailer, b"/Size");
    } else {
        let (dict, data) = stream_at(bytes, offset);
        size = number_after(&dict, b"/Size");
        let index_at = find(&dict, b"/Index[").unwrap() + 7;
        let index_end = index_at + dict[index_at..].iter().position(|b| *b == b']').unwrap();
        let index = numbers(std::str::from_utf8(&dict[index_at..index_end]).unwrap());
        let mut at = 0;
        for pair in index.chunks(2) {
            for k in 0..pair[1] as u32 {
                let r = &data[at..at + 7];
                let field = u32::from_be_bytes([r[1], r[2], r[3], r[4]]);
                let low = u16::from_be_bytes([r[5], r[6]]);
                let entry = match r[0] {
                    0 => XrefEntry::Free { next_free: field, generation: low },
                    1 => XrefEntry::Normal { offset: field, generation: low },
                    _ => XrefEntry::Compressed { container: field, index: low },
                };
                entries.insert(pair[0] as u32 + k, entry);
                at += 7;
            }
        }
    }
    let mut objects = BTreeMap::new();
    let mut object_streams = BTreeMap::new();
    let mut members: BTreeMap<u32, Vec<(u32, Vec<u8>)>> = BTreeMap::new();
    for (&id, entry) in &entries {
        if let XrefEntry::Normal { offset, generation } = *entry {
            let header = format!("{id} {generation} obj");
            assert!(bytes[offset as usize..].starts_with(header.as_bytes()), "entry {id} locates its object");
            let value = direct_at(bytes, offset as usize);
            if find(&value, b"/Type/ObjStm").is_some() {
                let (dict, data) = stream_at(bytes, offset as usize);
                let n = number_after(&dict, b"/N") as usize;
                let first = number_after(&dict, b"/First") as usize;
                let pairs = numbers(std::str::from_utf8(&data[..first]).unwrap());
                assert_eq!(pairs.len(), 2 * n);
                let mut list = Vec::new();
                for i in 0..n {
                    let start = first + pairs[2 * i + 1] as usize;
                    let end = if i + 1 < n { first + pairs[2 * i + 3] as usize } else { data.len() };
                    list.push((pairs[2 * i] as u32, data[start..end].to_vec()));
                }
                members.insert(id, list);
                object_streams.insert(id, n);
            } else if find(&value, b"/Type/XRef").is_none() {
                objects.insert((id, generation), value);
            }
        }
    }
    for (&id, entry) in &entries {
        if let XrefEntry::Compressed { container, index } = *entry {
            let (member, value) = &members[&container][index as usize];
            assert_eq!(*member, id);
            objects.insert((id, 0), value.clone());
        }
    }
    Loaded { entries, size, objects, object_streams }
}

/// The document a reader would build from a saved file, for another save.
fn reopen(loaded: &Loaded, version: &str) -> Document {
    let mut doc = Document::with_version(version);
    doc.reference_table = Xref::new(loaded.size as u32, XrefType::CrossReferenceStream);
    for (&id, entry) in &loaded.entries {
        doc.reference_table.insert(id, *entry);
    }
    for &(id, generation) in loaded.objects.keys() {
        doc.objects.insert((id, generation), value_object(loaded.value((id, generation))));
    }
    doc.max_id = loaded.max_id();
    doc.trailer.set(b"Size".to_vec(), Object::Integer(loaded.size));
    doc
}

fn value_object(value: i64) -> Object {
    let mut dict = Dictionary::new();
    dict.set(b"Value".to_vec(), Object::Integer(value));
    Object::Dictionary(dict)
}

// ---------------------------------------------------------------------------
// Full rewrites and their free lists.
// ---------------------------------------------------------------------------

#[derive(Clone, Copy, Debug)]
enum Encoding {
    Table,
    Stream,
    ObjectStreams,
}

const ENCODINGS: [Encoding; 3] = [Encoding::Table, Encoding::Stream, Encoding::ObjectStreams];

/// A document as a classic file with the given live objects, free entries and `Size`
/// loads: entry 0 heads the free list, every listed number has its entry, and an object
/// whose number the table marks free is not among the objects.
fn input(live: &[(u32, u16)], free: &[(u32, u32, u16)], size: u32, _stale: bool) -> Document {
    let mut doc = Document::with_version("1.5");
    doc.reference_table = Xref::new(size, XrefType::CrossReferenceTable);
    doc.reference_table.insert(0, XrefEntry::Free { next_free: 0, generation: 65535 });
    let mut offset = 9u32;
    let mut max_id = 0;
    for &(id, generation) in live {
        doc.reference_table.insert(id, XrefEntry::Normal { offset, generation });
        doc.objects.insert((id, generation), value_object(i64::from(id)));
        offset += 40;
        max_id = max_id.max(id);
    }
    for &(id, next, generation) in free {
        doc.reference_table.insert(id, XrefEntry::Free { next_free: next, generation });
        max_id = max_id.max(id);
    }
    doc.max_id = max_id;
    doc.trailer.set(b"Size".to_vec(), Object::Integer(i64::from(size)));
    doc
}

fn save(doc: &mut Document, encoding: Encoding) -> (Vec<u8>, Loaded) {
    let mut bytes = Vec::new();
    if matches!(encoding, Encoding::Table) {
        doc.reference_table.cross_reference_type = XrefType::CrossReferenceTable;
    }
    let options = SaveOptions::builder()
        .use_xref_streams(!matches!(encoding, Encoding::Table))
        .use_object_streams(matches!(encoding, Encoding::ObjectStreams))
        .build();
    doc.save_with_options(&mut bytes, options).unwrap();
    let loaded = load(&bytes);
    (bytes, loaded)
}

fn verify(bytes: &[u8], doc: &Loaded, encoding: Encoding, expected_free: &[(u32, u16)], live: &[(u32, u16)]) {
    let max = doc.max_id();
    assert_eq!(doc.entries.len(), max as usize + 1);
    assert_eq!(doc.size, i64::from(max + 1));
    let reusable: Vec<_> = expected_free
        .iter()
        .filter_map(|&(id, generation)| (generation < u16::MAX).then_some(id))
        .collect();
    let mut actual_free = Vec::new();
    for id in 0..=max {
        let entry = doc.get(id).expect("complete coverage");
        if let XrefEntry::Free { next_free, generation } = entry {
            if id == 0 {
                assert_eq!(*generation, u16::MAX);
                assert_eq!(*next_free, reusable.first().copied().unwrap_or(0));
            } else {
                actual_free.push((id, *generation));
                let next = reusable.iter().position(|&free| free == id).and_then(|i| reusable.get(i + 1));
                assert_eq!(*next_free, next.copied().unwrap_or(0));
                assert!(!doc.objects.keys().any(|&(object_id, _)| object_id == id));
            }
        }
    }
    assert_eq!(actual_free, expected_free);
    // Follow the actual chain separately: all reusable IDs once, then object 0.
    let mut current = 0;
    for expected in reusable.iter().copied().chain(std::iter::once(0)) {
        let Some(XrefEntry::Free { next_free, .. }) = doc.get(current) else {
            panic!("free chain reached a live object");
        };
        assert_eq!(*next_free, expected);
        current = *next_free;
    }
    for &(id, generation) in live {
        assert!(matches!(doc.get(id), Some(XrefEntry::Normal { .. } | XrefEntry::Compressed { .. })));
        assert_eq!(doc.value((id, generation)), i64::from(id));
    }

    // Check the physical representation as well.
    let offset = startxref(bytes);
    let tail = &bytes[offset..];
    match encoding {
        Encoding::Table => {
            let text = std::str::from_utf8(tail).unwrap();
            let mut lines = text.lines();
            assert_eq!(lines.next(), Some("xref"));
            assert_eq!(lines.next().unwrap(), format!("0 {}", max + 1));
            for id in 0..=max {
                let mut encoded = Vec::new();
                doc.get(id).unwrap().write_xref_entry(&mut encoded);
                assert_eq!(lines.next().unwrap().as_bytes(), encoded.strip_suffix(b"\n").unwrap());
            }
            assert_eq!(lines.next(), Some("trailer"));
        }
        Encoding::Stream | Encoding::ObjectStreams => {
            let stream = b"stream\n";
            let begin = find(tail, stream).unwrap() + stream.len();
            let header = std::str::from_utf8(&tail[..begin]).unwrap();
            assert!(header.contains(&format!("/Index[0 {}]", max + 1)));
            for id in 0..=max {
                let record = &tail[begin + id as usize * 7..begin + (id as usize + 1) * 7];
                let mut encoded = Vec::new();
                doc.get(id).unwrap().push_record(id, &mut encoded);
                assert_eq!(record, encoded.as_slice());
            }
            assert_eq!(tail[begin], 0, "object 0 must have a type-0 record");
        }
    }
}

#[test]
fn no_reusable_entries() {
    for encoding in ENCODINGS {
        let mut doc = input(&[(1, 0)], &[], 2, false);
        let (bytes, loaded) = save(&mut doc, encoding);
        verify(&bytes, &loaded, encoding, &[], &[(1, 0)]);
    }
}

#[test]
fn single_free_preserves_generation_and_high_identity() {
    for encoding in ENCODINGS {
        let mut doc = input(&[(1, 0)], &[(2, 99, 7)], 3, false);
        let (bytes, loaded) = save(&mut doc, encoding);
        verify(&bytes, &loaded, encoding, &[(2, 7)], &[(1, 0)]);
    }
}

#[test]
fn rebuilds_noncontiguous_free_chain_and_ignores_malformed_links() {
    for encoding in ENCODINGS {
        // Source links include a cycle, a live target, and an out-of-range target.
        let mut doc = input(&[(1, 0), (4, 0)], &[(2, 2, 7), (3, 4, 9), (5, 999, 0), (6, 2, 65535)], 7, false);
        let (bytes, loaded) = save(&mut doc, encoding);
        verify(&bytes, &loaded, encoding, &[(2, 7), (3, 9), (5, 0), (6, 65535)], &[(1, 0), (4, 0)]);
    }
}

#[test]
fn unrepresented_gaps_have_generation_zero() {
    for encoding in ENCODINGS {
        let mut doc = input(&[(1, 0), (4, 0)], &[], 5, false);
        let max_id = doc.max_id;
        let (bytes, loaded) = save(&mut doc, encoding);
        verify(&bytes, &loaded, encoding, &[(2, 0), (3, 0)], &[(1, 0), (4, 0)]);
        if matches!(encoding, Encoding::Table) {
            assert_eq!(doc.max_id, max_id);
            // The next new object takes the number after the highest one.
            assert_eq!((doc.max_id + 1, 0u16), (max_id + 1, 0));
        }
    }
}

#[test]
fn removed_normal_increments_once_and_saturates() {
    for encoding in ENCODINGS {
        let mut doc = input(&[(1, 0), (2, 7), (3, 65534), (4, 65535)], &[], 5, false);
        let mut kept = pdfwrite::document::ObjectMap::new();
        kept.insert((1, 0), value_object(1));
        doc.objects = kept;
        let (bytes, loaded) = save(&mut doc, encoding);
        let expected = [(2, 8), (3, 65535), (4, 65535)];
        verify(&bytes, &loaded, encoding, &expected, &[(1, 0)]);
        // A second table rewrite must preserve the now-effective free generations.
        let mut again = reopen(&loaded, "1.5");
        again.reference_table.cross_reference_type = XrefType::CrossReferenceTable;
        let (bytes, reloaded) = save(&mut again, Encoding::Table);
        for &(id, generation) in &expected {
            assert!(
                matches!(reloaded.get(id), Some(XrefEntry::Free { generation: actual, .. }) if *actual == generation)
            );
        }
        assert!(!bytes.is_empty());
    }
}

#[test]
fn removed_compressed_member_becomes_generation_one() {
    let mut source = input(&[(1, 0), (2, 0)], &[], 3, false);
    let (_, source) = save(&mut source, Encoding::ObjectStreams);
    assert!(matches!(source.get(2), Some(XrefEntry::Compressed { .. })));
    for encoding in ENCODINGS {
        let mut doc = reopen(&source, "1.5");
        let mut kept = pdfwrite::document::ObjectMap::new();
        kept.insert((1, 0), value_object(1));
        doc.objects = kept;
        let (bytes, loaded) = save(&mut doc, encoding);
        assert!(matches!(loaded.get(2), Some(XrefEntry::Free { generation: 1, .. })));
        // Existing serialization may omit old container/xref objects too.
        let expected: Vec<_> = (1..=loaded.max_id())
            .filter(|&id| !matches!(loaded.get(id), Some(XrefEntry::Normal { .. } | XrefEntry::Compressed { .. })))
            .map(|id| {
                let generation = match source.get(id).unwrap() {
                    XrefEntry::Compressed { .. } => 1,
                    XrefEntry::Normal { generation, .. } => generation.saturating_add(1),
                    other => panic!("unexpected prior entry: {other:?}"),
                };
                (id, generation)
            })
            .collect();
        verify(&bytes, &loaded, encoding, &expected, &[(1, 0)]);
    }
}

#[test]
fn effective_free_over_stale_physical_object_stays_free() {
    for encoding in ENCODINGS {
        let mut doc = input(&[(1, 0)], &[(2, 1, 7)], 3, true);
        assert!(doc.objects.get((2, 0)).is_none());
        let (bytes, loaded) = save(&mut doc, encoding);
        assert!(!bytes.windows(b"stale-physical-payload".len()).any(|s| s == b"stale-physical-payload"));
        verify(&bytes, &loaded, encoding, &[(2, 7)], &[(1, 0)]);
    }
}

#[test]
fn explicit_high_free_survives_but_trailer_capacity_does_not_expand_output() {
    for encoding in ENCODINGS {
        let mut doc = input(&[(1, 0)], &[(4, 88, 7)], 1000, false);
        assert_eq!(doc.reference_table.size, 1000);
        assert_eq!(doc.max_id, 4);
        let (bytes, loaded) = save(&mut doc, encoding);
        verify(&bytes, &loaded, encoding, &[(2, 0), (3, 0), (4, 7)], &[(1, 0)]);
        assert_eq!(
            loaded.max_id(),
            match encoding {
                Encoding::Table => 4,
                Encoding::Stream => 5,
                Encoding::ObjectStreams => 6,
            }
        );
        let mut no_free = input(&[(1, 0)], &[], 1000, false);
        let (bytes, loaded) = save(&mut no_free, encoding);
        verify(&bytes, &loaded, encoding, &[], &[(1, 0)]);
        assert!(loaded.max_id() <= 3);
    }
}

#[test]
fn unusable_free_shorthand_is_excluded_from_chain() {
    for encoding in ENCODINGS {
        let mut doc = input(&[(1, 0)], &[(2, 99, 7)], 3, false);
        doc.reference_table.insert(2, XrefEntry::UnusableFree);
        let (bytes, loaded) = save(&mut doc, encoding);
        verify(&bytes, &loaded, encoding, &[(2, 65535)], &[(1, 0)]);
    }
}

// ---------------------------------------------------------------------------
// Object stream members.
// ---------------------------------------------------------------------------

fn assert_member_round_trip(count: u32, configured_max: usize, expected_counts: &[usize]) {
    let mut document = Document::with_version("1.7");
    for ordinal in 0..count {
        document.objects.insert((ordinal + 1, 0), Object::Integer(i64::from(ordinal)));
    }
    // Nonzero generations keep these structural objects out of the exact member count.
    let pages = (count + 1, 1);
    let catalog = (count + 2, 1);
    let mut pages_dict = Dictionary::new();
    pages_dict.set(b"Type".to_vec(), Object::Name(b"Pages".to_vec()));
    pages_dict.set(b"Kids".to_vec(), Object::Array(Vec::new()));
    pages_dict.set(b"Count".to_vec(), Object::Integer(0));
    document.objects.insert(pages, Object::Dictionary(pages_dict));
    let mut catalog_dict = Dictionary::new();
    catalog_dict.set(b"Type".to_vec(), Object::Name(b"Catalog".to_vec()));
    catalog_dict.set(b"Pages".to_vec(), Object::Reference(pages));
    catalog_dict.set(
        b"Members".to_vec(),
        Object::Array((1..=count).map(|id| Object::Reference((id, 0))).collect()),
    );
    document.objects.insert(catalog, Object::Dictionary(catalog_dict));
    document.max_id = count + 2;
    document.trailer.set(b"Root".to_vec(), Object::Reference(catalog));
    let original_max_id = document.max_id;
    let mut bytes = Vec::new();
    document
        .save_with_options(
            &mut bytes,
            SaveOptions {
                use_object_streams: true,
                use_xref_streams: true,
                object_stream_config: ObjectStreamConfig {
                    max_objects_per_stream: configured_max,
                    compression_level: 0,
                },
                ..Default::default()
            },
        )
        .unwrap();

    let loaded = load(&bytes);
    for &id in loaded.object_streams.keys() {
        assert!(matches!(loaded.get(id), Some(XrefEntry::Normal { generation: 0, .. })));
    }
    let streams = &loaded.object_streams;
    assert_eq!(streams.values().copied().collect::<Vec<_>>(), expected_counts);
    assert_eq!(document.max_id, original_max_id + expected_counts.len() as u32 + 1);
    assert_eq!(loaded.max_id(), document.max_id);
    assert_eq!(loaded.size, i64::from(document.max_id) + 1);

    let expected_authority: Vec<_> = streams
        .iter()
        .flat_map(|(&container, &members)| {
            assert!(members <= configured_max);
            assert!(members <= 65_536);
            (0..members).map(move |index| (container, index))
        })
        .collect();
    assert_eq!(expected_authority.len(), count as usize);
    let mut coordinates = BTreeSet::new();
    let mut highest_index = 0;
    for (ordinal, &(container, index)) in expected_authority.iter().enumerate() {
        let id = ordinal as u32 + 1;
        match loaded.get(id).unwrap() {
            XrefEntry::Compressed { container: actual_container, index: actual_index } => {
                assert_eq!((*actual_container, usize::from(*actual_index)), (container, index));
                assert!(coordinates.insert((*actual_container, *actual_index)));
                highest_index = highest_index.max(usize::from(*actual_index));
            }
            other => panic!("member {id} has unexpected authority: {other:?}"),
        }
        // Check every payload as well as the first, last, and split-boundary identities.
        assert_eq!(loaded.value((id, 0)), ordinal as i64);
    }
    assert_eq!(highest_index, expected_counts.iter().max().unwrap() - 1);
    assert_eq!(
        loaded.entries.values().filter(|entry| matches!(entry, XrefEntry::Compressed { .. })).count(),
        count as usize
    );
    let catalog_text = &loaded.objects[&catalog];
    assert_eq!(
        catalog_text.windows(2).filter(|w| w == b" R").count(),
        count as usize + 1,
        "the catalog refers to the pages and to every member"
    );
}

#[test]
fn generated_member_ordinal_boundaries() {
    // Run sequentially to avoid multiplying peak memory across large fixtures.
    for (count, maximum, expected) in [
        (65_535, 65_535, vec![65_535]),
        (65_536, 65_536, vec![65_536]),
        (65_537, 65_537, vec![65_536, 1]),
        (70_000, 70_000, vec![65_536, 4_464]),
    ] {
        assert_member_round_trip(count, maximum, &expected);
    }
}

#[test]
fn smaller_requested_maximum_is_preserved() {
    assert_member_round_trip(250, 100, &[100, 100, 50]);
}

// ---------------------------------------------------------------------------
// Save options.
// ---------------------------------------------------------------------------

fn name(text: &str) -> Object {
    Object::Name(text.as_bytes().to_vec())
}

fn dict(pairs: Vec<(&str, Object)>) -> Dictionary {
    let mut d = Dictionary::new();
    for (key, value) in pairs {
        d.set(key.as_bytes().to_vec(), value);
    }
    d
}

fn contains(haystack: &[u8], needle: &[u8]) -> bool {
    haystack.windows(needle.len()).any(|window| window == needle)
}

/// A one page document written with a classic cross-reference table, as a document
/// loaded from a pre-1.5 file would be.
fn sample_document() -> Document {
    let mut doc = Document::with_version("1.4");
    doc.reference_table.cross_reference_type = XrefType::CrossReferenceTable;
    let pages_id = (1, 0);
    let content_id = (2, 0);
    let page_id = (3, 0);
    let catalog_id = (4, 0);
    doc.objects.insert(content_id, Object::Stream(Stream::new(Dictionary::new(), b"BT ET".to_vec())));
    doc.objects.insert(
        page_id,
        Object::Dictionary(dict(vec![
            ("Type", name("Page")),
            ("Parent", Object::Reference(pages_id)),
            (
                "MediaBox",
                Object::Array(vec![Object::Integer(0), Object::Integer(0), Object::Integer(612), Object::Integer(792)]),
            ),
            ("Contents", Object::Reference(content_id)),
        ])),
    );
    doc.objects.insert(
        pages_id,
        Object::Dictionary(dict(vec![
            ("Type", name("Pages")),
            ("Kids", Object::Array(vec![Object::Reference(page_id)])),
            ("Count", Object::Integer(1)),
        ])),
    );
    doc.objects.insert(
        catalog_id,
        Object::Dictionary(dict(vec![("Type", name("Catalog")), ("Pages", Object::Reference(pages_id))])),
    );
    doc.max_id = 4;
    doc.trailer.set(b"Root".to_vec(), Object::Reference(catalog_id));
    doc
}

/// The number of the root's catalog, with `Type` `Catalog`, in a saved file.
fn assert_catalog_readable(bytes: &[u8]) {
    let loaded = load(bytes);
    let catalog = loaded
        .objects
        .iter()
        .find(|(_, text)| contains(text, b"/Type/Catalog"))
        .map(|(id, _)| *id)
        .expect("the catalog survives the save");
    assert!(contains(&loaded.objects[&catalog], b"/Pages 1 0 R"));
    assert_eq!(
        loaded.objects.values().filter(|text| contains(text, b"/Contents 2 0 R")).count(),
        1,
        "one page"
    );
}

#[test]
fn xref_streams_are_written_without_object_streams() {
    let mut doc = sample_document();
    let options = SaveOptions::builder().use_object_streams(false).use_xref_streams(true).build();
    let mut buffer = Vec::new();
    doc.save_with_options(&mut buffer, options).unwrap();

    assert!(
        contains(&buffer, b"/Type/XRef") || contains(&buffer, b"/Type /XRef"),
        "a requested cross-reference stream should be written even with object streams off"
    );
    assert!(!contains(&buffer, b"\nxref\n"), "the classic cross-reference table should not be written as well");
    assert!(!contains(&buffer, b"/ObjStm"), "object streams were not requested and must not appear");
    // A cross-reference stream is a PDF 1.5 construct, so the header has to say so.
    assert!(buffer.starts_with(b"%PDF-1.5"));
    assert_catalog_readable(&buffer);

    // Save stability: the same options applied again must produce another readable file.
    let mut again = Vec::new();
    let options = SaveOptions::builder().use_object_streams(false).use_xref_streams(true).build();
    doc.save_with_options(&mut again, options).unwrap();
    assert!(contains(&again, b"/Type/XRef"));
    assert_catalog_readable(&again);
}

#[test]
fn cross_reference_table_is_kept_when_xref_streams_are_not_requested() {
    let mut doc = sample_document();
    let options = SaveOptions::builder().use_object_streams(false).use_xref_streams(false).build();
    let mut buffer = Vec::new();
    doc.save_with_options(&mut buffer, options).unwrap();
    assert!(contains(&buffer, b"\nxref\n"), "the classic table is the default");
    assert!(!contains(&buffer, b"/Type/XRef") && !contains(&buffer, b"/Type /XRef"), "no cross-reference stream was requested");
    assert!(!contains(&buffer, b"/ObjStm"), "object streams were not requested and must not appear");
    assert!(buffer.starts_with(b"%PDF-1.4"), "the version is left alone");
    assert_catalog_readable(&buffer);
}

#[test]
fn both_options_together_still_write_object_and_xref_streams() {
    let mut doc = sample_document();
    let options = SaveOptions::builder().use_object_streams(true).use_xref_streams(true).build();
    let mut buffer = Vec::new();
    doc.save_with_options(&mut buffer, options).unwrap();
    assert!(contains(&buffer, b"/ObjStm"), "object streams were requested");
    assert!(contains(&buffer, b"/Type/XRef"), "object streams need a cross-reference stream");
    assert!(!contains(&buffer, b"\nxref\n"));
    assert!(buffer.starts_with(b"%PDF-1.5"));
    // Compressed objects remain live: the catalog packed into an object stream is found.
    assert_catalog_readable(&buffer);
    let loaded = load(&buffer);
    assert!(loaded.entries.values().any(|entry| matches!(entry, XrefEntry::Compressed { .. })));

    let mut second_buffer = Vec::new();
    let options = SaveOptions::builder().use_object_streams(true).use_xref_streams(true).build();
    doc.save_with_options(&mut second_buffer, options).unwrap();
    assert_catalog_readable(&second_buffer);
}

#[test]
fn existing_xref_stream_source_stays_on_xref_streams_when_not_forced() {
    let mut doc = sample_document();
    doc.reference_table.cross_reference_type = XrefType::CrossReferenceStream;
    doc.version = "1.5".to_string();
    let options = SaveOptions::builder().use_object_streams(true).use_xref_streams(false).build();
    let mut buffer = Vec::new();
    doc.save_with_options(&mut buffer, options).unwrap();
    assert!(contains(&buffer, b"/ObjStm"), "object streams stay possible on a stream-based document");
    assert!(contains(&buffer, b"/Type/XRef"), "the document keeps its cross-reference streams");
    assert!(!contains(&buffer, b"\nxref\n"));
    assert!(matches!(doc.reference_table.cross_reference_type, XrefType::CrossReferenceStream));
    assert_catalog_readable(&buffer);

    let mut second_buffer = Vec::new();
    let options = SaveOptions::builder().use_object_streams(true).use_xref_streams(false).build();
    doc.save_with_options(&mut second_buffer, options).unwrap();
    assert_catalog_readable(&second_buffer);
}

#[test]
fn object_streams_without_eligible_objects_keep_classic_table() {
    let mut doc = Document::with_version("1.4");
    doc.reference_table.cross_reference_type = XrefType::CrossReferenceTable;
    doc.objects.insert((1, 0), Object::Stream(Stream::new(Dictionary::new(), b"BT ET".to_vec())));
    doc.max_id = 1;
    let options = SaveOptions::builder().use_object_streams(true).use_xref_streams(false).build();
    let mut buffer = Vec::new();
    doc.save_with_options(&mut buffer, options).unwrap();
    assert!(contains(&buffer, b"\nxref\n"), "with nothing to compress the classic table is kept");
    assert!(!contains(&buffer, b"/ObjStm"), "no object stream can be built from stream-only content");
    let loaded = load(&buffer);
    assert!(
        loaded.entries.values().all(|entry| !matches!(entry, XrefEntry::Compressed { .. })),
        "a classic output cannot contain compressed entries"
    );
    assert!(contains(&loaded.objects[&(1, 0)], b"BT ET"), "the only object must survive");
}

#[test]
fn builder_zero_capacity_is_normalized_and_saves_with_object_streams() {
    let mut doc = sample_document();
    let options = SaveOptions::builder()
        .use_object_streams(true)
        .use_xref_streams(true)
        .max_objects_per_stream(0)
        .build();
    let mut buffer = Vec::new();
    doc.save_with_options(&mut buffer, options).unwrap();
    assert!(contains(&buffer, b"/ObjStm"), "the builder-normalized capacity must still produce object streams");
    assert_catalog_readable(&buffer);
}

#[test]
fn zero_capacity_without_eligible_objects_keeps_classic_table() {
    let mut doc = Document::with_version("1.4");
    doc.reference_table.cross_reference_type = XrefType::CrossReferenceTable;
    // Only stream objects: nothing an object stream can hold.
    doc.objects.insert((1, 0), Object::Stream(Stream::new(Dictionary::new(), b"BT ET".to_vec())));
    doc.max_id = 1;
    let options = SaveOptions {
        use_object_streams: true,
        use_xref_streams: false,
        object_stream_config: ObjectStreamConfig { max_objects_per_stream: 0, ..Default::default() },
        ..Default::default()
    };
    let mut buffer = Vec::new();
    doc.save_with_options(&mut buffer, options).unwrap();
    assert!(contains(&buffer, b"\nxref\n"), "with nothing to compress the classic cross-reference table is kept");
    assert!(!contains(&buffer, b"/ObjStm"), "no object stream can be built from stream-only content");
    let loaded = load(&buffer);
    assert!(contains(&loaded.objects[&(1, 0)], b"BT ET"), "the only object must survive the round trip");
}
