use pdfwrite::copy::copy_object;
use pdfwrite::decimal::expand_scientific_real;
use pdfwrite::document::{Document, EncryptionState};
use pdfwrite::error::{ErrorKind, SaveError};
use pdfwrite::incremental::IncrementalDocument;
use pdfwrite::object::{Dictionary, Object, ObjectId, RealNumber, Stream, StringFormat};
use pdfwrite::save_options::{ObjectStreamConfig, SaveOptions};
use pdfwrite::sink::{account, CountingWrite};
use pdfwrite::writer::{Writer, XRefStreamFilter};
use pdfwrite::xref::{Xref, XrefEntry, XrefType};

fn name(text: &str) -> Object {
    Object::Name(text.as_bytes().to_vec())
}

fn dict(pairs: Vec<(&str, Object)>) -> Dictionary {
    let mut d = Dictionary::new();
    for (key, value) in pairs {
        d.set(key.as_bytes().to_vec(), value);
    }
    d
}

fn contains(haystack: &[u8], needle: &[u8]) -> bool {
    haystack.windows(needle.len()).any(|window| window == needle)
}

fn find(haystack: &[u8], needle: &[u8]) -> Option<usize> {
    haystack.windows(needle.len()).position(|window| window == needle)
}

fn rfind(haystack: &[u8], needle: &[u8]) -> Option<usize> {
    haystack.windows(needle.len()).rposition(|window| window == needle)
}

/// A one page document written with a classic cross-reference table.
fn sample_document() -> Document {
    let mut doc = Document::with_version("1.4");
    doc.reference_table.cross_reference_type = XrefType::CrossReferenceTable;
    let pages_id: ObjectId = (1, 0);
    let content_id: ObjectId = (2, 0);
    let page_id: ObjectId = (3, 0);
    let catalog_id: ObjectId = (4, 0);
    doc.objects.insert(
        content_id,
        Object::Stream(Stream::new(Dictionary::new(), b"BT ET".to_vec())),
    );
    doc.objects.insert(
        page_id,
        Object::Dictionary(dict(vec![
            ("Type", name("Page")),
            ("Parent", Object::Reference(pages_id)),
            (
                "MediaBox",
                Object::Array(vec![
                    Object::Integer(0),
                    Object::Integer(0),
                    Object::Integer(612),
                    Object::Integer(792),
                ]),
            ),
            ("Contents", Object::Reference(content_id)),
        ])),
    );
    doc.objects.insert(
        pages_id,
        Object::Dictionary(dict(vec![
            ("Type", name("Pages")),
            ("Kids", Object::Array(vec![Object::Reference(page_id)])),
            ("Count", Object::Integer(1)),
        ])),
    );
    doc.objects.insert(
        catalog_id,
        Object::Dictionary(dict(vec![
            ("Type", name("Catalog")),
            ("Pages", Object::Reference(pages_id)),
        ])),
    );
    doc.max_id = 4;
    doc.trailer.set(b"Root".to_vec(), Object::Reference(catalog_id));
    doc
}

fn assert_unchanged(doc: &Document, xref_type: XrefType) {
    let fresh = sample_document();
    assert_eq!(doc.version, "1.4", "the version must not change before failing");
    assert_eq!(doc.reference_table.cross_reference_type, xref_type);
    assert_eq!(doc.max_id, 4, "max_id must not grow before failing");
    assert_eq!(doc.trailer, fresh.trailer, "the trailer must not be modified");
    assert_eq!(doc.objects, fresh.objects, "the objects must not be modified");
}

/// The object number and generation of every in-use line of a classic table.
fn table_entries(bytes: &[u8]) -> Vec<(u32, u64, u16)> {
    let start = rfind(bytes, b"\nxref\n").unwrap() + 6;
    let mut at = start;
    let mut entries = Vec::new();
    loop {
        let line_end = at + bytes[at..].iter().position(|b| *b == b'\n').unwrap();
        let header = std::str::from_utf8(&bytes[at..line_end]).unwrap();
        if header == "trailer" {
            break;
        }
        let mut parts = header.split(' ');
        let first: u32 = parts.next().unwrap().parse().unwrap();
        let count: u32 = parts.next().unwrap().parse().unwrap();
        at = line_end + 1;
        for k in 0..count {
            let line = std::str::from_utf8(&bytes[at..at + 20]).unwrap();
            assert_eq!(line.len(), 20);
            if line.ends_with("n \n") {
                let offset: u64 = line[0..10].parse().unwrap();
                let generation: u16 = line[11..16].parse().unwrap();
                entries.push((first + k, offset, generation));
            }
            at += 20;
        }
    }
    entries
}

fn startxref_value(bytes: &[u8]) -> usize {
    let at = rfind(bytes, b"startxref\n").unwrap() + 10;
    let end = at + bytes[at..].iter().position(|b| *b == b'\n').unwrap();
    std::str::from_utf8(&bytes[at..end]).unwrap().parse().unwrap()
}

fn keep(_state: &EncryptionState, _id: ObjectId, object: &Object) -> Result<Object, SaveError> {
    Ok(copy_object(object))
}

#[test]
fn object_streams_with_classic_xref_are_rejected_before_any_output() {
    let mut doc = sample_document();
    let options = SaveOptions::builder()
        .use_object_streams(true)
        .use_xref_streams(false)
        .build();
    let mut buffer = Vec::new();
    let error = doc.save_with_options(&mut buffer, options).unwrap_err();
    assert_eq!(error.kind(), ErrorKind::Unsupported);
    assert!(buffer.is_empty(), "a rejected save must not write a single byte to the target");
    assert_unchanged(&doc, XrefType::CrossReferenceTable);
}

#[test]
fn object_streams_with_direct_zero_capacity_are_rejected_for_classic_output() {
    let mut doc = sample_document();
    let options = SaveOptions {
        use_object_streams: true,
        use_xref_streams: false,
        object_stream_config: ObjectStreamConfig { max_objects_per_stream: 0, ..Default::default() },
        ..Default::default()
    };
    let mut buffer = Vec::new();
    let error = doc.save_with_options(&mut buffer, options).unwrap_err();
    assert_eq!(error.kind(), ErrorKind::InvalidInput);
    assert!(buffer.is_empty(), "a rejected save must not write a single byte");
    assert_unchanged(&doc, XrefType::CrossReferenceTable);
}

#[test]
fn object_streams_with_direct_zero_capacity_are_rejected_for_xref_stream_output() {
    let mut doc = sample_document();
    let options = SaveOptions {
        use_object_streams: true,
        use_xref_streams: true,
        object_stream_config: ObjectStreamConfig { max_objects_per_stream: 0, ..Default::default() },
        ..Default::default()
    };
    let mut buffer = Vec::new();
    let error = doc.save_with_options(&mut buffer, options).unwrap_err();
    assert_eq!(error.kind(), ErrorKind::InvalidInput);
    assert!(buffer.is_empty(), "a rejected save must not write a single byte");
    assert_unchanged(&doc, XrefType::CrossReferenceTable);
}

#[test]
fn nonfinite_reals_refuse_serialization() {
    for value in [f32::NAN, f32::INFINITY, f32::NEG_INFINITY] {
        assert!(!value.is_finite());
        let mut doc = Document::with_version("1.5");
        doc.objects.insert(
            (1, 0),
            Object::Dictionary(dict(vec![
                ("Type", name("Catalog")),
                ("Value", Object::Real(RealNumber::non_finite())),
            ])),
        );
        doc.max_id = 1;
        doc.trailer.set(b"Root".to_vec(), Object::Reference((1, 0)));

        let mut bytes = Vec::new();
        let error = doc.save_to(&mut bytes).unwrap_err();
        assert_eq!(error.kind(), ErrorKind::InvalidData);
        let text = String::from_utf8_lossy(&bytes);
        assert!(!text.contains("NaN"), "a non-finite Real must not be written as NaN");
        assert!(!text.contains("inf"), "a non-finite Real must not be written as infinity");
    }
}

#[test]
fn nonfinite_reals_nested_in_containers_refuse_serialization() {
    let mut doc = Document::with_version("1.5");
    doc.objects.insert(
        (1, 0),
        Object::Dictionary(dict(vec![
            ("Type", name("Catalog")),
            (
                "Value",
                Object::Array(vec![Object::Dictionary(dict(vec![(
                    "Inner",
                    Object::Real(RealNumber::non_finite()),
                )]))]),
            ),
        ])),
    );
    doc.max_id = 1;
    doc.trailer.set(b"Root".to_vec(), Object::Reference((1, 0)));

    let mut bytes = Vec::new();
    let error = doc.save_to(&mut bytes).unwrap_err();
    assert_eq!(error.kind(), ErrorKind::InvalidData);
}

#[test]
fn classic_save_entries_point_at_their_objects() {
    let mut doc = sample_document();
    let mut bytes = Vec::new();
    doc.save_to(&mut bytes).unwrap();
    assert!(bytes.starts_with(b"%PDF-1.4\n%"));
    assert!(bytes.ends_with(b"%%EOF"));
    let entries = table_entries(&bytes);
    assert_eq!(entries.len(), 4);
    for (id, offset, generation) in entries {
        let header = format!("{id} {generation} obj");
        assert!(
            bytes[offset as usize..].starts_with(header.as_bytes()),
            "entry {id} must point at its object"
        );
    }
    let xref_start = startxref_value(&bytes);
    assert!(bytes[xref_start..].starts_with(b"xref\n0 5\n0000000000 65535 f \n"));
    assert_eq!(doc.trailer.get(b"Size"), Some(&Object::Integer(5)));
}

#[test]
fn xref_stream_save_locates_its_own_stream() {
    let mut doc = sample_document();
    let options = SaveOptions::builder().use_xref_streams(true).build();
    let mut bytes = Vec::new();
    doc.save_with_options(&mut bytes, options).unwrap();
    assert!(bytes.starts_with(b"%PDF-1.5"), "a cross-reference stream raises the version");
    assert!(contains(&bytes, b"/Type/XRef") || contains(&bytes, b"/Type /XRef"));
    assert!(!contains(&bytes, b"\nxref\n"), "no classic table is written as well");
    assert!(!contains(&bytes, b"/ObjStm"), "object streams were not requested");
    let xref_start = startxref_value(&bytes);
    assert!(bytes[xref_start..].starts_with(b"5 0 obj"));
    assert_eq!(doc.max_id, 5, "the stream takes the next object number");
    assert_eq!(doc.version, "1.5");
}

#[test]
fn object_and_xref_streams_together() {
    let mut doc = sample_document();
    let mut bytes = Vec::new();
    doc.save_modern(&mut bytes).unwrap();
    assert!(bytes.starts_with(b"%PDF-1.5"));
    assert!(contains(&bytes, b"/ObjStm"));
    assert!(contains(&bytes, b"/Type/XRef") || contains(&bytes, b"/Type /XRef"));
    assert!(!contains(&bytes, b"\nxref\n"));
    assert!(contains(&bytes, b"2 0 obj"), "the content stream is written on its own");
    assert!(!contains(&bytes, b"\n3 0 obj"), "the page goes into an object stream");
}

#[test]
fn builder_zero_capacity_is_normalized() {
    let options = SaveOptions::builder().max_objects_per_stream(0).build();
    assert_eq!(options.object_stream_config.max_objects_per_stream, 100);
    let options = SaveOptions::builder().max_objects_per_stream(7).compression_level(9).build();
    assert_eq!(options.object_stream_config.max_objects_per_stream, 7);
    assert_eq!(options.object_stream_config.compression_level, 9);
    let defaults = SaveOptions::default();
    assert!(!defaults.use_object_streams);
    assert!(!defaults.use_xref_streams);
    assert_eq!(defaults.object_stream_config.max_objects_per_stream, 100);
    assert_eq!(defaults.object_stream_config.compression_level, 6);

    let mut doc = sample_document();
    let options = SaveOptions::builder()
        .use_object_streams(true)
        .use_xref_streams(true)
        .max_objects_per_stream(0)
        .build();
    let mut bytes = Vec::new();
    doc.save_with_options(&mut bytes, options).unwrap();
    assert!(contains(&bytes, b"/ObjStm"));
}

#[test]
fn object_streams_without_candidates_keep_the_classic_table() {
    let mut doc = Document::with_version("1.4");
    doc.reference_table.cross_reference_type = XrefType::CrossReferenceTable;
    doc.objects.insert((1, 0), Object::Stream(Stream::new(Dictionary::new(), b"BT ET".to_vec())));
    doc.max_id = 1;
    let options = SaveOptions {
        use_object_streams: true,
        use_xref_streams: false,
        object_stream_config: ObjectStreamConfig { max_objects_per_stream: 0, ..Default::default() },
        ..Default::default()
    };
    let mut bytes = Vec::new();
    doc.save_with_options(&mut bytes, options).unwrap();
    assert!(contains(&bytes, b"\nxref\n"));
    assert!(!contains(&bytes, b"/ObjStm"));
    assert!(bytes.starts_with(b"%PDF-1.5"), "a save with object streams raises the version");
}

#[test]
fn incremental_save_keeps_the_previous_file() {
    let mut first = sample_document();
    let mut previous = Vec::new();
    first.save_to(&mut previous).unwrap();

    let mut newer = Document::with_version("1.4");
    newer.reference_table.cross_reference_type = XrefType::CrossReferenceTable;
    newer.objects.insert((5, 0), Object::Dictionary(dict(vec![("Title", Object::String(b"x".to_vec(), StringFormat::Literal))])));
    newer.max_id = 5;
    newer.trailer.set(b"Root".to_vec(), Object::Reference((4, 0)));
    newer.trailer.set(b"Info".to_vec(), Object::Reference((5, 0)));

    let mut inc = IncrementalDocument::create_from(previous.clone(), sample_document(), newer);
    let mut out = Vec::new();
    inc.save_to(&mut out, keep).unwrap();
    assert!(out.starts_with(&previous), "the previous file is kept byte for byte");
    let tail = &out[previous.len()..];
    assert!(tail.starts_with(b"\n5 0 obj"), "a line feed separates the revisions");
    let entries = table_entries(&out);
    assert_eq!(entries.len(), 1);
    let (id, offset, generation) = entries[0];
    assert_eq!((id, generation), (5, 0));
    assert!(out[offset as usize..].starts_with(b"5 0 obj"));
    let xref_start = startxref_value(&out);
    assert!(out[xref_start..].starts_with(b"xref\n"));
    assert_eq!(inc.new_document.trailer.get(b"Size"), Some(&Object::Integer(6)));
}

#[test]
fn incremental_save_of_an_encrypted_revision_is_refused() {
    let mut prev = sample_document();
    prev.objects.insert((9, 0), Object::Dictionary(dict(vec![("Filter", name("Standard"))])));
    prev.trailer.set(b"Encrypt".to_vec(), Object::Reference((9, 0)));
    let mut inc = IncrementalDocument::create_from(b"%PDF-1.4\n".to_vec(), prev, sample_document());
    assert_eq!(inc.check_incremental_save_supported().unwrap_err().kind(), ErrorKind::Unsupported);
    let mut out = b"kept".to_vec();
    let error = inc.save_to(&mut out, keep).unwrap_err();
    assert_eq!(error.kind(), ErrorKind::Unsupported);
    assert_eq!(out, b"kept".to_vec(), "nothing is written");

    let mut prev = sample_document();
    prev.encryption_state = Some(EncryptionState::new(None));
    let inc = IncrementalDocument::create_from(Vec::new(), prev, sample_document());
    assert_eq!(inc.check_incremental_save_supported().unwrap_err().kind(), ErrorKind::Unsupported);
}

#[test]
fn incremental_save_of_a_decrypted_revision_restores_encrypt() {
    let mut prev = sample_document();
    prev.encryption_state = Some(EncryptionState::new(Some((9, 0))));
    let mut newer = sample_document();
    newer.encryption_state = Some(EncryptionState::new(Some((9, 0))));
    let mut inc = IncrementalDocument::create_from(b"%PDF-1.4\n".to_vec(), prev, newer);
    let mut out = Vec::new();
    inc.save_to(&mut out, keep).unwrap();
    assert!(contains(&out, b"/Encrypt 9 0 R"));
    assert_eq!(inc.new_document.trailer.get(b"Encrypt"), None, "the revision keeps its own trailer");

    let mut prev = sample_document();
    prev.encryption_state = Some(EncryptionState::new(Some((9, 0))));
    let mut inc = IncrementalDocument::create_from(b"%PDF-1.4\n".to_vec(), prev, sample_document());
    let mut out = Vec::new();
    let refuse = |_: &EncryptionState, _: ObjectId, _: &Object| -> Result<Object, SaveError> {
        Err(SaveError::Other("no key"))
    };
    assert_eq!(inc.save_to(&mut out, refuse).unwrap_err().kind(), ErrorKind::Other);
}

#[test]
fn full_rewrite_rebuilds_the_free_list() {
    let mut doc = Document::with_version("1.4");
    doc.max_id = 5;
    doc.reference_table.insert(2, XrefEntry::Normal { offset: 10, generation: 3 });
    doc.reference_table.insert(4, XrefEntry::Free { next_free: 0, generation: 7 });
    doc.reference_table.insert(5, XrefEntry::Normal { offset: 10, generation: 65535 });
    let mut xref = Xref::new(0, XrefType::CrossReferenceTable);
    xref.insert(1, XrefEntry::Normal { offset: 15, generation: 0 });
    xref.insert(3, XrefEntry::Normal { offset: 30, generation: 0 });
    doc.normalize_full_save_xref(&mut xref);
    assert_eq!(xref.size, 6);
    assert_eq!(xref.get(0), Some(&XrefEntry::Free { next_free: 2, generation: 65535 }));
    assert_eq!(xref.get(1), Some(&XrefEntry::Normal { offset: 15, generation: 0 }));
    assert_eq!(xref.get(2), Some(&XrefEntry::Free { next_free: 4, generation: 4 }));
    assert_eq!(xref.get(3), Some(&XrefEntry::Normal { offset: 30, generation: 0 }));
    assert_eq!(xref.get(4), Some(&XrefEntry::Free { next_free: 0, generation: 7 }));
    assert_eq!(xref.get(5), Some(&XrefEntry::Free { next_free: 0, generation: 65535 }));
}

#[test]
fn xref_stream_data_in_hex() {
    let mut xref = Xref::new(3, XrefType::CrossReferenceStream);
    xref.insert(1, XrefEntry::Normal { offset: 0x0102_0304, generation: 5 });
    xref.insert(2, XrefEntry::Compressed { container: 7, index: 1 });
    let (raw, length, index) = Writer::create_xref_steam(&xref, XRefStreamFilter::NoFilter).unwrap();
    assert_eq!(length, 14);
    assert_eq!(raw, vec![1, 1, 2, 3, 4, 0, 5, 2, 0, 0, 0, 7, 0, 1]);
    assert_eq!(index, Object::Array(vec![Object::Integer(1), Object::Integer(2)]));
    let (hex, length, _) = Writer::create_xref_steam(&xref, XRefStreamFilter::ASCIIHexDecode).unwrap();
    assert_eq!(length, 14);
    assert_eq!(hex, b"0101020304000502000000070001".to_vec());
}

#[test]
fn names_strings_and_numbers_are_escaped() {
    let mut out = Vec::new();
    Writer::write_object(&mut out, &Object::Name(b"A B#(".to_vec())).unwrap();
    assert_eq!(out, b"/A#20B#23#28".to_vec());

    let mut out = Vec::new();
    Writer::write_object(&mut out, &Object::String(b"a(b)\\c\r".to_vec(), StringFormat::Literal)).unwrap();
    assert_eq!(out, b"(a(b)\\\\c\\r)".to_vec());

    let mut out = Vec::new();
    Writer::write_object(&mut out, &Object::String(b"x)y(".to_vec(), StringFormat::Literal)).unwrap();
    assert_eq!(out, b"(x\\)y\\()".to_vec());

    let mut out = Vec::new();
    Writer::write_object(&mut out, &Object::String(vec![0x00, 0xAB, 0x7f], StringFormat::Hexadecimal)).unwrap();
    assert_eq!(out, b"<00AB7F>".to_vec());

    let mut out = Vec::new();
    Writer::write_object(&mut out, &Object::Integer(-9223372036854775808)).unwrap();
    assert_eq!(out, b"-9223372036854775808".to_vec());

    let mut out = Vec::new();
    Writer::write_object(
        &mut out,
        &Object::Array(vec![Object::Boolean(true), Object::Null, Object::Reference((12, 3)), Object::Integer(4)]),
    )
    .unwrap();
    assert_eq!(out, b"[true null 12 3 R 4]".to_vec());
}

#[test]
fn scientific_reals_expand_to_plain_decimals() {
    let cases: [(&[u8], &[u8]); 7] = [
        (b"1e0", b"1.0"),
        (b"1.5e2", b"150.0"),
        (b"-2.5e-3", b"-0.0025"),
        (b"1.25e1", b"12.5"),
        (b"3e-1", b"0.3"),
        (b"-0e0", b"-0.0"),
        (b"1.17549435e-38", b"0.0000000000000000000000000000000000000117549435"),
    ];
    for (scientific, plain) in cases {
        assert_eq!(expand_scientific_real(scientific), Some(plain.to_vec()));
    }
    assert_eq!(expand_scientific_real(b"12.5"), None);
    assert_eq!(expand_scientific_real(b"1e+"), None);
    let mut out = Vec::new();
    let real = RealNumber::from_scientific(b"-1.5e1".to_vec()).unwrap();
    Writer::write_object(&mut out, &Object::Real(real)).unwrap();
    assert_eq!(out, b"-15.0".to_vec());
}

#[test]
fn dictionaries_keep_one_value_per_key() {
    let mut d = Dictionary::new();
    d.set(b"A".to_vec(), Object::Integer(1));
    d.set(b"B".to_vec(), Object::Integer(2));
    d.set(b"A".to_vec(), Object::Integer(3));
    assert_eq!(d.len(), 2);
    assert_eq!(d.get(b"A"), Some(&Object::Integer(3)));
    assert!(d.has(b"B"));
    assert_eq!(d.remove(b"B"), Some(Object::Integer(2)));
    assert_eq!(d.get(b"B"), None);
    assert_eq!(d.remove(b"B"), None);
    let copy = copy_object(&Object::Dictionary(d));
    let mut expected = Dictionary::new();
    expected.set(b"A".to_vec(), Object::Integer(3));
    assert_eq!(copy, Object::Dictionary(expected));
}

#[test]
fn binary_mark_must_be_binary() {
    let mut file = CountingWrite::new(Vec::new(), 0);
    Writer::write_binary_mark(&mut file, &[0xBB, 0xAD, 0xC0, 0xDE]).unwrap();
    assert_eq!(file.inner(), &vec![b'%', 0xBB, 0xAD, 0xC0, 0xDE, b'\n']);
    let mut file = CountingWrite::new(Vec::new(), 0);
    let error = Writer::write_binary_mark(&mut file, b"abcd").unwrap_err();
    assert_eq!(error.kind(), ErrorKind::InvalidData);
    assert!(file.inner().is_empty());
    assert_eq!(file.bytes_written(), 0);
}

#[test]
fn malformed_scientific_text_has_no_plain_form() {
    for text in [
        b"xe0".as_slice(),
        b"e5",
        b"-e0",
        b"+1e0",
        b"1e+5",
        b"1.e0",
        b".5e0",
        b"1.5",
        b"1ex",
        b"1e",
        b"1e-",
        b"1.2.3e0",
    ] {
        assert_eq!(expand_scientific_real(text), None, "{:?}", String::from_utf8_lossy(text));
    }
    assert!(RealNumber::from_scientific(b"xe0".to_vec()).is_none());
    assert!(RealNumber::from_scientific(b"1.5".to_vec()).is_none());
    assert!(RealNumber::from_scientific(b"1.5e0".to_vec()).is_some());
}

#[test]
fn account_counts_what_the_sink_reports() {
    let (count, result) = account(10, Ok(5));
    assert_eq!(count, 15);
    assert_eq!(result.unwrap(), 5);
    let (count, result) = account(usize::MAX - 1, Ok(2));
    assert_eq!(count, usize::MAX - 1);
    assert_eq!(result.unwrap_err().kind(), ErrorKind::InvalidInput);
    let (count, result) = account(3, Err(std::io::Error::other("refused")));
    assert_eq!(count, 3);
    assert_eq!(result.unwrap_err().kind(), ErrorKind::Sink);
}
