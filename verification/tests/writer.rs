use pdfwrite::document::Document;
use pdfwrite::error::{ErrorKind, SaveError};
use pdfwrite::object::{Dictionary, Object, RealNumber, Stream};
use pdfwrite::sink::CountingWrite;
use pdfwrite::writer::{Writer, XRefStreamFilter};
use pdfwrite::xref::{Xref, XrefEntry, XrefType};
use std::io::Write;

fn assert_normal_offset(entry: Option<&XrefEntry>, expected: u32) {
    match entry {
        Some(XrefEntry::Normal { offset, generation: 0 }) => assert_eq!(*offset, expected),
        other => panic!("unexpected xref entry: {other:?}"),
    }
}

fn real_object(value: f32) -> Object {
    if value.is_finite() {
        Object::Real(RealNumber::from_scientific(format!("{value:e}").into_bytes()).unwrap())
    } else {
        Object::Real(RealNumber::non_finite())
    }
}

#[test]
fn raw_null_authority_is_rejected_by_both_writers() {
    for id in [0, 2] {
        let mut xref = Xref::new(3, XrefType::CrossReferenceStream);
        xref.insert(1, XrefEntry::Normal { offset: 9, generation: 0 });
        xref.insert(id, XrefEntry::Null);
        let mut bytes = CountingWrite::new(Vec::new(), 0);
        assert_eq!(
            Writer::write_xref(&mut bytes, &xref).unwrap_err().kind(),
            ErrorKind::Unsupported
        );
        assert!(bytes.inner().is_empty());
        assert_eq!(
            Writer::create_xref_steam(&xref, XRefStreamFilter::NoFilter)
                .unwrap_err()
                .kind(),
            ErrorKind::Unsupported
        );
    }
}

#[test]
fn write_xref_rejects_compressed_entries_before_emitting_bytes() {
    let mut xref = Xref::new(4, XrefType::CrossReferenceTable);
    xref.insert(1, XrefEntry::Normal { offset: 9, generation: 0 });
    xref.insert(2, XrefEntry::Compressed { container: 3, index: 1 });
    xref.insert(3, XrefEntry::Normal { offset: 42, generation: 0 });

    let mut buffer = CountingWrite::new(Vec::new(), 0);
    let error = Writer::write_xref(&mut buffer, &xref).unwrap_err();
    assert_eq!(error.kind(), ErrorKind::Unsupported);
    assert!(
        buffer.inner().is_empty(),
        "a rejected table must not emit a single byte, not even the 'xref' keyword"
    );
}

#[test]
fn checked_position_u32_accepts_u32_max() {
    let mut sink: Vec<u8> = Vec::new();
    let file = CountingWrite::new(&mut sink, u32::MAX as usize);
    assert_eq!(file.checked_position_u32().unwrap(), u32::MAX);
}

#[test]
fn checked_position_u32_rejects_above_u32_max() {
    let mut sink: Vec<u8> = Vec::new();
    let file = CountingWrite::new(&mut sink, u32::MAX as usize + 1);
    let error = file.checked_position_u32().unwrap_err();
    assert_eq!(error.kind(), ErrorKind::InvalidInput);
}

#[test]
fn write_indirect_object_accepts_u32_max_offset() {
    let mut file = CountingWrite::new(Vec::new(), u32::MAX as usize);
    let mut xref = Xref::new(2, XrefType::CrossReferenceTable);
    Writer::write_indirect_object(&mut file, 1, 0, &Object::Integer(7), &mut xref).unwrap();
    assert_normal_offset(xref.get(1), u32::MAX);
    let text = std::str::from_utf8(file.inner()).unwrap();
    assert!(text.contains("1 0 obj"), "object bytes must reach the sink");
}

#[test]
fn write_indirect_object_rejects_unrepresentable_offset() {
    let mut file = CountingWrite::new(Vec::new(), u32::MAX as usize + 1);
    let mut xref = Xref::new(2, XrefType::CrossReferenceTable);
    let error = Writer::write_indirect_object(&mut file, 1, 0, &Object::Integer(7), &mut xref).unwrap_err();
    assert_eq!(error.kind(), ErrorKind::InvalidInput);
    assert!(xref.get(1).is_none(), "no xref authority may be inserted");
    assert!(file.inner().is_empty(), "no object bytes may be emitted");
}

#[test]
fn classic_table_serializes_u32_max_offset() {
    let mut xref = Xref::new(2, XrefType::CrossReferenceTable);
    xref.insert(1, XrefEntry::Normal { offset: u32::MAX, generation: 0 });
    let mut buffer = CountingWrite::new(Vec::new(), 0);
    Writer::write_xref(&mut buffer, &xref).unwrap();
    let text = String::from_utf8(buffer.into_inner()).unwrap();
    assert!(text.starts_with("xref\n"));
    assert!(text.contains("0000000000 65535 f \n"));
    assert!(text.contains("4294967295 00000 n \n"));
}

#[test]
fn classic_footer_startxref_is_not_u32_constrained() {
    let mut file = CountingWrite::new(Vec::new(), u32::MAX as usize + 1);
    let mut xref = Xref::new(2, XrefType::CrossReferenceTable);
    xref.insert(1, XrefEntry::Normal { offset: 9, generation: 0 });
    Writer::write_xref(&mut file, &xref).unwrap();
    let xref_start = file.bytes_written();
    assert!(xref_start as u64 > u64::from(u32::MAX));
    file.write_all(format!("\nstartxref\n{xref_start}\n%%EOF").as_bytes()).unwrap();
    let text = String::from_utf8(file.into_inner()).unwrap();
    assert!(text.contains(&format!("startxref\n{xref_start}\n%%EOF")));
}

#[test]
fn xref_stream_self_offset_at_u32_max() {
    let mut doc = Document::with_version("1.5");
    doc.max_id = 1;
    let mut file = CountingWrite::new(Vec::new(), u32::MAX as usize);
    let mut xref = Xref::new(2, XrefType::CrossReferenceStream);
    doc.write_cross_reference_stream(&mut file, &mut xref, true).unwrap();
    assert_normal_offset(xref.get(doc.max_id), u32::MAX);
    let sink = file.into_inner();
    let type1_u32_max: [u8; 7] = [1, 0xFF, 0xFF, 0xFF, 0xFF, 0x00, 0x00];
    assert!(
        sink.windows(type1_u32_max.len()).any(|window| window == type1_u32_max),
        "raw type-1 field 2 must encode offset FF FF FF FF"
    );
}

fn root_trailer() -> Dictionary {
    let mut trailer = Dictionary::new();
    trailer.set(b"Root".to_vec(), Object::Reference((1, 0)));
    trailer
}

#[test]
fn xref_stream_self_offset_above_u32_max_rejected_before_mutation() {
    let mut doc = Document::with_version("1.5");
    doc.max_id = 1;
    doc.trailer = root_trailer();
    let max_id_before = doc.max_id;
    let mut xref = Xref::new(2, XrefType::CrossReferenceStream);
    xref.insert(1, XrefEntry::Normal { offset: 9, generation: 0 });
    let xref_entries_before = format!("{:?}", xref.entries);

    let mut file = CountingWrite::new(Vec::new(), u32::MAX as usize + 1);
    let error = doc
        .write_cross_reference_stream(&mut file, &mut xref, true)
        .unwrap_err();
    assert_eq!(error.kind(), ErrorKind::InvalidInput);
    assert!(file.inner().is_empty(), "the helper must not emit any byte");
    assert_eq!(doc.max_id, max_id_before, "max_id must stay untouched");
    assert_eq!(doc.trailer, root_trailer(), "trailer must stay untouched");
    assert_eq!(
        xref_entries_before,
        format!("{:?}", xref.entries),
        "xref entries must stay untouched"
    );
}

#[test]
fn full_save_footer_matches_xref_stream_position() {
    let mut doc = Document::with_version("1.5");
    doc.objects.insert((1, 0), Object::Integer(1));
    doc.objects.insert((2, 0), Object::Integer(2));
    doc.max_id = 2;
    let mut out = Vec::new();
    doc.save_to(&mut out).unwrap();
    let text = String::from_utf8_lossy(&out);
    let footer_pos = text.find("startxref\n").unwrap() + "startxref\n".len();
    let footer_end = text[footer_pos..].find('\n').unwrap() + footer_pos;
    let startxref: usize = text[footer_pos..footer_end].parse().unwrap();
    let expected = format!("{} 0 obj", doc.max_id);
    assert!(
        out[startxref..].starts_with(expected.as_bytes()),
        "the checked helper position and the printed startxref must both land on the xref stream object"
    );
}

#[test]
fn incremental_mode_xref_stream_uses_helper_position_and_full_width_footer() {
    let mut doc = Document::with_version("1.5");
    doc.max_id = 1;
    let mut file = CountingWrite::new(Vec::new(), u32::MAX as usize);
    let mut xref = Xref::new(2, XrefType::CrossReferenceStream);
    let xref_start = file.bytes_written();
    doc.write_cross_reference_stream(&mut file, &mut xref, false).unwrap();
    assert_normal_offset(xref.get(doc.max_id), u32::MAX);
    assert_eq!(
        doc.trailer.get(b"Size").unwrap(),
        &Object::Integer(i64::from(doc.max_id + 1))
    );
    file.write_all(format!("\nstartxref\n{xref_start}\n%%EOF").as_bytes()).unwrap();
    let text = String::from_utf8_lossy(file.inner());
    assert!(text.contains("startxref\n4294967295\n%%EOF"));
}

#[test]
fn generated_stream_object_accepts_u32_max_offset() {
    let mut file = CountingWrite::new(Vec::new(), u32::MAX as usize);
    let mut xref = Xref::new(6, XrefType::CrossReferenceStream);
    let stream = Object::Stream(Stream::new(Dictionary::new(), vec![0x41, 0x42, 0x43]));
    Writer::write_indirect_object(&mut file, 5, 0, &stream, &mut xref).unwrap();
    assert_normal_offset(xref.get(5), u32::MAX);
    let sink = file.into_inner();
    let text = std::str::from_utf8(&sink).unwrap();
    assert!(text.contains("5 0 obj"));
    assert!(sink.windows(3).any(|window| window == [0x41, 0x42, 0x43]));
}

#[test]
fn generated_stream_object_rejects_unrepresentable_offset() {
    let mut file = CountingWrite::new(Vec::new(), u32::MAX as usize + 1);
    let mut xref = Xref::new(6, XrefType::CrossReferenceStream);
    let stream = Object::Stream(Stream::new(Dictionary::new(), vec![0x41, 0x42, 0x43]));
    let error = Writer::write_indirect_object(&mut file, 5, 0, &stream, &mut xref).unwrap_err();
    assert_eq!(error.kind(), ErrorKind::InvalidInput);
    assert!(xref.get(5).is_none());
    assert!(file.inner().is_empty());
}

#[test]
fn counting_write_write_overflow_returns_error_without_wrap() {
    let mut sink = Vec::new();
    let mut file = CountingWrite::new(&mut sink, usize::MAX);
    let error = file.write(b"payload").unwrap_err();
    assert_eq!(error.kind(), ErrorKind::InvalidInput);
    assert_eq!(file.bytes_written(), usize::MAX, "the counter must not wrap");
    assert_eq!(sink, b"payload", "bytes already reached the sink, no rollback");
}

#[test]
fn counting_write_zero_len_write_at_counter_max_is_ok() {
    let mut sink = Vec::new();
    let mut file = CountingWrite::new(&mut sink, usize::MAX);
    assert_eq!(file.write(b"").unwrap(), 0);
    assert_eq!(file.bytes_written(), usize::MAX);
    assert!(sink.is_empty());
}

struct OneByteAtATime(Vec<u8>);

impl Write for OneByteAtATime {
    fn write(&mut self, buf: &[u8]) -> std::io::Result<usize> {
        let accepted = buf.len().min(1);
        self.0.extend_from_slice(&buf[..accepted]);
        Ok(accepted)
    }
    fn flush(&mut self) -> std::io::Result<()> {
        Ok(())
    }
}

struct FailingSink;

impl Write for FailingSink {
    fn write(&mut self, _: &[u8]) -> std::io::Result<usize> {
        Err(std::io::Error::new(std::io::ErrorKind::BrokenPipe, "sink failed"))
    }
    fn flush(&mut self) -> std::io::Result<()> {
        Ok(())
    }
}

fn sink_kind(error: SaveError) -> std::io::ErrorKind {
    match error {
        SaveError::Sink(e) => e.kind(),
        other => panic!("expected a sink error, got {other:?}"),
    }
}

#[test]
fn counting_write_counts_actually_written_bytes() {
    let mut sink = OneByteAtATime(Vec::new());
    let mut file = CountingWrite::new(&mut sink, 0);
    assert_eq!(file.write(b"abc").unwrap(), 1);
    assert_eq!(file.bytes_written(), 1);
    assert_eq!(sink.0, b"a");
}

#[test]
fn counting_write_underlying_error_propagates() {
    let mut file = CountingWrite::new(FailingSink, 10);
    let error = file.write(b"abc").unwrap_err();
    assert_eq!(sink_kind(error), std::io::ErrorKind::BrokenPipe);
    assert_eq!(file.bytes_written(), 10);
}

#[test]
fn counting_write_all_overflow_is_rejected_before_the_underlying_write() {
    let mut sink = Vec::new();
    let mut file = CountingWrite::new(&mut sink, usize::MAX);
    let error = file.write_all(b"payload").unwrap_err();
    assert_eq!(error.kind(), ErrorKind::InvalidInput);
    assert!(sink.is_empty(), "an unrepresentable future count must not reach the sink");
}

#[test]
fn counting_write_all_advances_only_after_successful_write() {
    let mut sink = Vec::new();
    let mut file = CountingWrite::new(&mut sink, usize::MAX - 3);
    file.write_all(b"abc").unwrap();
    assert_eq!(file.bytes_written(), usize::MAX);
    assert_eq!(sink, b"abc");
}

#[test]
fn counting_write_all_underlying_error_does_not_advance_counter() {
    let mut file = CountingWrite::new(FailingSink, 10);
    let error = file.write_all(b"abc").unwrap_err();
    assert_eq!(sink_kind(error), std::io::ErrorKind::BrokenPipe);
    assert_eq!(file.bytes_written(), 10);
}

fn sampled_finite_real_bits() -> Vec<u32> {
    let mut bits = Vec::new();
    for sign in [0u32, 0x8000_0000] {
        for exponent in [0u32, 1, 2, 3, 4, 7, 15, 30, 60, 100, 126, 127, 128, 150, 200, 254] {
            for mantissa in [0u32, 1, 2, 0x40_0000, 0x7f_ffff, 0x12_3456] {
                bits.push(sign | (exponent << 23) | mantissa);
            }
        }
    }
    bits.sort_unstable();
    bits.dedup();
    bits
}

fn assert_real_token(value: f32) {
    let mut buffer = Vec::new();
    Writer::write_object(&mut buffer, &real_object(value)).unwrap();
    let token = std::str::from_utf8(&buffer).unwrap();
    assert!(
        token.contains('.'),
        "{value:?} serialized as {token:?} without a decimal point"
    );
    assert!(
        !token.contains('e') && !token.contains('E'),
        "{value:?} serialized as {token:?} with an exponent"
    );
    let parsed: f32 = token
        .parse()
        .unwrap_or_else(|error| panic!("{token:?} is not an f32: {error}"));
    assert_eq!(
        parsed.to_bits(),
        value.to_bits(),
        "{value:?} serialized as {token:?} and parsed back as {parsed:?}"
    );
}

#[test]
fn required_real_values_keep_real_syntax_and_round_trip() {
    for value in [0.0, -0.0, 1.0, -1.0, 2.0, 1.5, -1.5, 0.5, 0.1] {
        assert_real_token(value);
    }
}

#[test]
fn integral_reals_are_not_written_as_integers() {
    let mut buffer = Vec::new();
    Writer::write_object(&mut buffer, &real_object(1.0)).unwrap();
    assert_eq!(buffer, b"1.0");
    buffer.clear();
    Writer::write_object(&mut buffer, &real_object(-1.0)).unwrap();
    assert_eq!(buffer, b"-1.0");
    buffer.clear();
    Writer::write_object(&mut buffer, &real_object(0.0)).unwrap();
    assert_eq!(buffer, b"0.0");
}

#[test]
fn negative_zero_keeps_its_sign_and_bits() {
    let mut buffer = Vec::new();
    Writer::write_object(&mut buffer, &real_object(-0.0)).unwrap();
    assert_eq!(buffer, b"-0.0");
    let parsed: f32 = std::str::from_utf8(&buffer).unwrap().parse().unwrap();
    assert_eq!(parsed.to_bits(), (-0.0f32).to_bits());
    assert_ne!(parsed.to_bits(), 0.0f32.to_bits());
}

#[test]
fn exponent_prone_and_boundary_reals_round_trip() {
    for value in [
        f32::MIN_POSITIVE,
        f32::EPSILON,
        f32::MAX,
        -f32::MAX,
        f32::MIN,
        1.0e-20,
        1.0e-30,
        1.0e20,
        1.0e30,
        1.0e38,
        f32::from_bits(0x0000_0001),
        f32::from_bits(0x8000_0001),
        f32::from_bits(0x003f_ffff),
        f32::from_bits(0x807f_ffff),
    ] {
        assert_real_token(value);
    }
}

#[test]
fn sampled_finite_real_bits_keep_real_syntax_and_round_trip() {
    let bits = sampled_finite_real_bits();
    assert!(bits.len() > 100, "the sample must span the sign/exponent/mantissa grid");
    for bit_pattern in bits {
        assert_real_token(f32::from_bits(bit_pattern));
    }
}

#[test]
fn nonfinite_reals_are_rejected_without_writing_a_token() {
    for value in [f32::NAN, f32::INFINITY, f32::NEG_INFINITY] {
        let mut buffer = Vec::new();
        let error = Writer::write_object(&mut buffer, &real_object(value)).unwrap_err();
        assert_eq!(error.kind(), ErrorKind::InvalidData);
        assert!(buffer.is_empty(), "{value:?} wrote {buffer:?} before failing");
    }
}

#[test]
fn nonfinite_reals_are_rejected_inside_containers() {
    for object in [
        Object::Array(vec![real_object(f32::NAN)]),
        Object::Dictionary({
            let mut dict = Dictionary::new();
            dict.set(b"Value".to_vec(), real_object(f32::INFINITY));
            dict
        }),
    ] {
        let mut buffer = Vec::new();
        let error = Writer::write_object(&mut buffer, &object).unwrap_err();
        assert_eq!(error.kind(), ErrorKind::InvalidData);
    }
}
