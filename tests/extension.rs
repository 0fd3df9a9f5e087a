use nifti::{ByteOrder, Extender, Extension, ExtensionSequence, NiftiEcode, NiftiError, SequenceDecoder};
use nifti::extension::reservation_outcome;

fn record_le(esize: i32, ecode: i32, payload: &[u8]) -> Vec<u8> {
    let mut v = Vec::new();
    v.extend_from_slice(&esize.to_le_bytes());
    v.extend_from_slice(&ecode.to_le_bytes());
    v.extend_from_slice(payload);
    v
}

#[test]
fn single_comment_record() {
    let extender = Extender::from([1, 0, 0, 0]);
    let bytes = record_le(16, 6, b"hello\0\0\0");
    let seq = ExtensionSequence::from_bytes(extender, &bytes, ByteOrder::Little, 16).unwrap();
    assert_eq!(seq.len(), 1);
    let ext = seq.iter().next().unwrap();
    assert_eq!(ext.size(), 16);
    assert_eq!(ext.code(), 6);
    assert_eq!(ext.data(), &b"hello\0\0\0".to_vec());
    assert_eq!(seq.bytes_on_disk(), 16);
    assert_eq!(seq.extender(), extender);
}

#[test]
fn big_endian_record() {
    let extender = Extender::from([1, 0, 0, 0]);
    let mut bytes = Vec::new();
    bytes.extend_from_slice(&16i32.to_be_bytes());
    bytes.extend_from_slice(&4i32.to_be_bytes());
    bytes.extend_from_slice(b"<xml/>\0\0");
    let seq = ExtensionSequence::from_bytes(extender, &bytes, ByteOrder::Big, 16).unwrap();
    let ext = seq.iter().next().unwrap();
    assert_eq!(ext.size(), 16);
    assert_eq!(ext.code(), 4);
    assert_eq!(ext.data(), &b"<xml/>\0\0".to_vec());
    // the same bytes read in the other order announce a size far beyond the stream
    let wrong = ExtensionSequence::from_bytes(extender, &bytes, ByteOrder::Little, 16);
    assert!(wrong.is_err());
}

#[test]
fn no_extensions_whatever_len() {
    let extender = Extender::from([0, 0, 0, 0]);
    let bytes = record_le(16, 6, b"hello\0\0\0");
    for len in [0usize, 16, 1000, usize::MAX] {
        let seq = ExtensionSequence::from_bytes(extender, &bytes, ByteOrder::Little, len).unwrap();
        assert!(seq.is_empty());
        assert_eq!(seq.len(), 0);
        assert_eq!(seq.bytes_on_disk(), 0);
    }
    let garbage = [0xffu8; 3];
    let seq = ExtensionSequence::from_bytes(extender, &garbage, ByteOrder::Big, 64).unwrap();
    assert!(seq.is_empty());
}

#[test]
fn no_extensions_decoder_reads_nothing() {
    let decoder = SequenceDecoder::new(Extender::from([0, 1, 2, 3]), 4096);
    assert!(!decoder.needs_record());
    assert!(decoder.finish().is_empty());
}

#[test]
fn truncated_payload() {
    let extender = Extender::from([1, 0, 0, 0]);
    let bytes = record_le(32, 6, &[7u8; 10]);
    let r = ExtensionSequence::from_bytes(extender, &bytes, ByteOrder::Little, 32);
    assert_eq!(r, Err(NiftiError::IncompatibleLength(10, 24)));
}

#[test]
fn huge_declared_size_fails_without_abort() {
    let extender = Extender::from([1, 0, 0, 0]);
    let bytes = record_le(i32::MAX, 6, &[1, 2, 3]);
    let r = ExtensionSequence::from_bytes(extender, &bytes, ByteOrder::Little, 1 << 20);
    let expected = (i32::MAX - 8) as usize;
    match r {
        Err(NiftiError::ReserveExtended(n)) => assert_eq!(n, expected),
        Err(NiftiError::IncompatibleLength(got, n)) => {
            assert_eq!(got, 3);
            assert_eq!(n, expected);
        }
        other => panic!("unexpected outcome {:?}", other),
    }
}

#[test]
fn stream_ends_in_header() {
    let extender = Extender::from([1, 0, 0, 0]);
    let bytes = record_le(16, 6, &[0u8; 8]);
    assert_eq!(
        ExtensionSequence::from_bytes(extender, &bytes[..6], ByteOrder::Little, 16),
        Err(NiftiError::UnexpectedEof)
    );
    assert_eq!(
        ExtensionSequence::from_bytes(extender, &bytes[..2], ByteOrder::Little, 16),
        Err(NiftiError::UnexpectedEof)
    );
    // a second record is expected, but the stream ends
    assert_eq!(
        ExtensionSequence::from_bytes(extender, &bytes, ByteOrder::Little, 32),
        Err(NiftiError::UnexpectedEof)
    );
}

#[test]
fn two_records_sizes_sum_to_offset() {
    let extender = Extender::from([1, 0, 0, 0]);
    let mut bytes = record_le(16, 6, b"abcdefgh");
    bytes.extend(record_le(32, 2, &[9u8; 24]));
    bytes.extend_from_slice(&[0xAA; 5]);
    let seq = ExtensionSequence::from_bytes(extender, &bytes, ByteOrder::Little, 48).unwrap();
    assert_eq!(seq.len(), 2);
    assert_eq!(seq.bytes_on_disk(), 48);
    let sizes: Vec<i32> = seq.iter().map(|e| e.size()).collect();
    assert_eq!(sizes, vec![16, 32]);
    let codes: Vec<i32> = seq.iter().map(|e| e.code()).collect();
    assert_eq!(codes, vec![6, 2]);
    // a budget that ends inside the first record still reads it whole
    let seq = ExtensionSequence::from_bytes(extender, &bytes, ByteOrder::Little, 10).unwrap();
    assert_eq!(seq.len(), 1);
    assert_eq!(seq.bytes_on_disk(), 16);
}

#[test]
fn small_declared_size_is_stored_as_header_only() {
    let extender = Extender::from([1, 0, 0, 0]);
    let mut bytes = record_le(3, 0, &[]);
    bytes.extend(record_le(16, 6, b"12345678"));
    let seq = ExtensionSequence::from_bytes(extender, &bytes, ByteOrder::Little, 24).unwrap();
    assert_eq!(seq.len(), 2);
    let first = seq.iter().next().unwrap();
    assert_eq!(first.size(), 8);
    assert!(first.data().is_empty());
    assert_eq!(seq.bytes_on_disk(), 24);
    let mut bytes = record_le(-5, 0, &[]);
    bytes.extend(record_le(8, 0, &[]));
    let seq = ExtensionSequence::from_bytes(extender, &bytes, ByteOrder::Little, 16).unwrap();
    assert_eq!(seq.len(), 2);
    assert_eq!(seq.bytes_on_disk(), 16);
}

#[test]
fn from_str_pads_to_sixteen() {
    let e = Extension::from_str(6, "hello");
    assert_eq!(e.size(), 16);
    assert_eq!(e.code(), 6);
    assert_eq!(e.data(), &b"hello\0\0\0".to_vec());

    let e = Extension::from_str(6, "12345678");
    assert_eq!(e.size(), 16);
    assert_eq!(e.data(), &b"12345678".to_vec());

    let e = Extension::from_str(6, "123456789");
    assert_eq!(e.size(), 32);
    assert_eq!(e.data().len(), 24);

    let e = Extension::from_str(0, "");
    assert_eq!(e.size(), 16);
    assert_eq!(e.into_data(), vec![0u8; 8]);
}

#[test]
fn from_str_round_trip() {
    for text in ["", "a", "some comment", "exactly 8", "a longer comment of some length"] {
        let e = Extension::from_str(6, text);
        assert_eq!(e.size() % 16, 0);
        assert!(e.size() as usize >= 8 + text.len());
        let mut data = e.into_data();
        while data.last() == Some(&0) {
            data.pop();
        }
        assert_eq!(data, text.as_bytes());
    }
}

#[test]
fn new_keeps_parts() {
    let e = Extension::new(12, 14, vec![1, 2, 3, 4]);
    assert_eq!(e.size(), 12);
    assert_eq!(e.code(), 14);
    assert_eq!(e.clone(), e);
    assert_eq!(e.into_data(), vec![1, 2, 3, 4]);
}

#[test]
fn from_wire_checks_length() {
    let e = Extension::from_wire(16, 6, vec![0u8; 8]).unwrap();
    assert_eq!(e.size(), 16);
    assert_eq!(
        Extension::from_wire(16, 6, vec![0u8; 5]),
        Err(NiftiError::IncompatibleLength(5, 8))
    );
    let e = Extension::from_wire(-1, 6, vec![]).unwrap();
    assert_eq!(e.size(), 8);
}

#[test]
fn sequence_from_parts() {
    let extender = Extender::from([1, 0, 0, 0]);
    let seq = ExtensionSequence::new(
        extender,
        vec![Extension::from_str(6, "abc"), Extension::new(40, 2, vec![0; 32])],
    );
    assert_eq!(seq.len(), 2);
    assert!(!seq.is_empty());
    assert_eq!(seq.bytes_on_disk(), 56);
    assert_eq!(seq.extender().as_bytes(), &[1, 0, 0, 0]);
    let all = seq.into_extensions();
    assert_eq!(all[1].code(), 2);
}

#[test]
fn extender_flag() {
    assert!(Extender::from([1, 0, 0, 0]).has_extensions());
    assert!(Extender::from([255, 0, 0, 0]).has_extensions());
    assert!(!Extender::from([0, 1, 1, 1]).has_extensions());
    assert!(!Extender::default().has_extensions());
    assert_eq!(Extender::from([4, 3, 2, 1]).as_bytes(), &[4, 3, 2, 1]);
}

#[test]
fn decoder_step_by_step() {
    let mut decoder = SequenceDecoder::new(Extender::from([1, 0, 0, 0]), 32);
    assert!(decoder.needs_record());
    assert_eq!(decoder.accept(16, 6, vec![1u8; 8]), Ok(()));
    assert!(decoder.needs_record());
    assert_eq!(
        decoder.accept(16, 6, vec![1u8; 3]),
        Err(NiftiError::IncompatibleLength(3, 8))
    );
    assert_eq!(decoder.accept(16, 10, vec![2u8; 8]), Ok(()));
    assert!(!decoder.needs_record());
    let seq = decoder.finish();
    assert_eq!(seq.len(), 2);
    assert_eq!(seq.bytes_on_disk(), 32);
}

#[test]
fn payload_len_clamps() {
    assert_eq!(nifti::extension::payload_len(16), 8);
    assert_eq!(nifti::extension::payload_len(8), 0);
    assert_eq!(nifti::extension::payload_len(3), 0);
    assert_eq!(nifti::extension::payload_len(-100), 0);
    assert_eq!(nifti::extension::payload_len(i32::MAX), (i32::MAX - 8) as usize);
}

#[test]
fn ecode_values() {
    let all = [
        (NiftiEcode::NiftEcodeIgnore, 0),
        (NiftiEcode::NiftiEcodeDicom, 2),
        (NiftiEcode::NiftiEcodeAFNI, 4),
        (NiftiEcode::NiftiEcodeComment, 6),
        (NiftiEcode::NiftiEcodeXCEDE, 8),
        (NiftiEcode::NiftiEcodeJimDimInfo, 10),
        (NiftiEcode::NiftiEcodeWorkflowFWDS, 12),
        (NiftiEcode::NiftiEcodeFreesurfer, 14),
    ];
    for (c, v) in all {
        assert_eq!(c.value(), v);
        assert_eq!(NiftiEcode::from_value(v), Some(c));
    }
    assert_eq!(NiftiEcode::from_value(1), None);
    assert_eq!(NiftiEcode::from_value(-2), None);
    assert_eq!(NiftiEcode::from_value(16), None);
}

#[test]
fn read_i32_in_both_orders() {
    let bytes = [0x01u8, 0x02, 0x03, 0x04, 0xff];
    assert_eq!(nifti::wire::read_i32_at(&bytes, 0, ByteOrder::Little), Some(0x04030201));
    assert_eq!(nifti::wire::read_i32_at(&bytes, 0, ByteOrder::Big), Some(0x01020304));
    assert_eq!(nifti::wire::read_i32_at(&bytes, 1, ByteOrder::Big), Some(0x020304ff));
    assert_eq!(nifti::wire::read_i32_at(&[0xff, 0xff, 0xff, 0xff], 0, ByteOrder::Little), Some(-1));
    assert_eq!(nifti::wire::read_i32_at(&bytes, 2, ByteOrder::Little), None);
    assert_eq!(nifti::wire::read_i32_at(&bytes, 5, ByteOrder::Little), None);
}

#[test]
fn reservation_outcomes() {
    assert_eq!(reservation_outcome(0, false), Ok(()));
    assert_eq!(reservation_outcome(0, true), Ok(()));
    assert_eq!(reservation_outcome(24, true), Ok(()));
    assert_eq!(reservation_outcome(24, false), Err(NiftiError::ReserveExtended(24)));
}

#[test]
fn header_only_records_decode() {
    let extender = Extender::from([1, 0, 0, 0]);
    let mut bytes = record_le(8, 0, &[]);
    bytes.extend(record_le(8, 2, &[]));
    let seq = ExtensionSequence::from_bytes(extender, &bytes, ByteOrder::Little, 16).unwrap();
    assert_eq!(seq.len(), 2);
    assert_eq!(seq.bytes_on_disk(), 16);
}

#[test]
fn iteration_by_value_and_by_reference() {
    let extender = Extender::from([1, 0, 0, 0]);
    let seq = ExtensionSequence::new(
        extender,
        vec![Extension::from_str(6, "first"), Extension::from_str(2, "second one, longer")],
    );
    let copy = seq.clone();
    assert_eq!(copy, seq);
    let by_ref: Vec<i32> = (&seq).into_iter().map(|e| e.code()).collect();
    assert_eq!(by_ref, vec![6, 2]);
    let by_value: Vec<Extension> = seq.into_iter().collect();
    assert_eq!(by_value.len(), 2);
    assert_eq!(by_value[0], Extension::from_str(6, "first"));
    assert_eq!(by_value[1].size(), 32);
    let cloned: Vec<Extension> = copy.iter().cloned().collect();
    assert_eq!(cloned, by_value);
}
