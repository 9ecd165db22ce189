use tidb_key_codec::db_to_kv::parse_record;
use tidb_key_codec::error::CodecError;
use tidb_key_codec::mvcc::{EncodeMethod, ParsingTrace, TimeStamp, Write, WriteType};

#[test]
fn test_parse_record() {
    let code = vec![
        116, 128, 0, 0, 0, 0, 0, 0, 53, 95, 114, 128, 0, 0, 0, 0, 0, 0, 1,
    ];
    let result = parse_record(&code).unwrap();
    assert_eq!(result.table_id, 53);
    assert_eq!(result.row_id, 1);
}

#[test]
fn record_negative_identifiers() {
    // A sign-flipped -1 is stored as 0x7fffffffffffffff.
    let mut code = vec![116];
    code.extend_from_slice(&[0x7f, 0xff, 0xff, 0xff, 0xff, 0xff, 0xff, 0xff]);
    code.push(95);
    code.push(114);
    code.extend_from_slice(&[0x80, 0, 0, 0, 0, 0, 0, 7]);
    let result = parse_record(&code).unwrap();
    assert_eq!(result.table_id, -1);
    assert_eq!(result.row_id, 7);
}

#[test]
fn record_structural_errors() {
    // Too short.
    assert_eq!(
        parse_record(&[116, 0, 0]).unwrap_err(),
        CodecError::InvalidRecordFormat
    );
    // Wrong table marker.
    let mut code = vec![
        117, 128, 0, 0, 0, 0, 0, 0, 53, 95, 114, 128, 0, 0, 0, 0, 0, 0, 1,
    ];
    assert_eq!(parse_record(&code).unwrap_err(), CodecError::InvalidRecordFormat);
    // Wrong separator.
    code[0] = 116;
    code[9] = 94;
    assert_eq!(parse_record(&code).unwrap_err(), CodecError::InvalidRecordFormat);
    // One byte too long.
    let long = vec![
        116, 128, 0, 0, 0, 0, 0, 0, 53, 95, 114, 128, 0, 0, 0, 0, 0, 0, 1, 0,
    ];
    assert_eq!(parse_record(&long).unwrap_err(), CodecError::InvalidRecordFormat);
}

#[test]
fn test_parse_write() {
    let cases = vec![
        (
            vec![80u8, 0, 118, 1, 0],
            Write {
                write_type: WriteType::Put,
                start_ts: TimeStamp(0),
                short_value: Some(vec![0]),
                has_overlapped_rollback: false,
                gc_fence: None,
            },
            vec![
                ParsingTrace {
                    start: 0,
                    width: 1,
                    description: "write_type".to_string(),
                    encoded_in: EncodeMethod::EnumFlag,
                },
                ParsingTrace {
                    start: 1,
                    width: 1,
                    description: "start_ts".to_string(),
                    encoded_in: EncodeMethod::VarInt,
                },
                ParsingTrace {
                    start: 2,
                    width: 1,
                    description: "flag:short_value".to_string(),
                    encoded_in: EncodeMethod::EnumFlag,
                },
                ParsingTrace {
                    start: 3,
                    width: 1,
                    description: "length:short_value".to_string(),
                    encoded_in: EncodeMethod::SingleByte,
                },
                ParsingTrace {
                    start: 4,
                    width: 1,
                    description: "short_value".to_string(),
                    encoded_in: EncodeMethod::Bytes,
                },
            ],
        ),
        (
            vec![68, 129, 128, 144, 171, 237, 172, 172, 242, 5],
            Write {
                write_type: WriteType::Delete,
                start_ts: TimeStamp(424659320104550401),
                short_value: None,
                has_overlapped_rollback: false,
                gc_fence: None,
            },
            vec![
                ParsingTrace {
                    start: 0,
                    width: 1,
                    description: "write_type".to_string(),
                    encoded_in: EncodeMethod::EnumFlag,
                },
                ParsingTrace {
                    start: 1,
                    width: 9,
                    description: "start_ts".to_string(),
                    encoded_in: EncodeMethod::VarInt,
                },
            ],
        ),
        (
            vec![
                80, 142, 128, 192, 164, 235, 172, 172, 242, 5, 118, 109, 123, 34, 118, 101,
                114, 115, 105, 111, 110, 34, 58, 56, 44, 34, 116, 121, 112, 101, 34, 58, 51,
                44, 34, 115, 99, 104, 101, 109, 97, 95, 105, 100, 34, 58, 51, 44, 34, 116, 97,
                98, 108, 101, 95, 105, 100, 34, 58, 49, 53, 44, 34, 111, 108, 100, 95, 116, 97,
                98, 108, 101, 95, 105, 100, 34, 58, 48, 44, 34, 111, 108, 100, 95, 115, 99,
                104, 101, 109, 97, 95, 105, 100, 34, 58, 48, 44, 34, 97, 102, 102, 101, 99,
                116, 101, 100, 95, 111, 112, 116, 105, 111, 110, 115, 34, 58, 110, 117, 108,
                108, 125,
            ],
            Write {
                write_type: WriteType::Put,
                start_ts: TimeStamp(424659319553785870),
                short_value: Some(b"{\"version\":8,\"type\":3,\"schema_id\":3,\"table_id\":15,\"old_table_id\":0,\"old_schema_id\":0,\"affected_options\":null}".to_vec()),
                has_overlapped_rollback: false,
                gc_fence: None,
            },
            vec![
                ParsingTrace {
                    start: 0,
                    width: 1,
                    description: "write_type".to_string(),
                    encoded_in: EncodeMethod::EnumFlag,
                },
                ParsingTrace {
                    start: 1,
                    width: 9,
                    description: "start_ts".to_string(),
                    encoded_in: EncodeMethod::VarInt,
                },
                ParsingTrace {
                    start: 10,
                    width: 1,
                    description: "flag:short_value".to_string(),
                    encoded_in: EncodeMethod::EnumFlag,
                },
                ParsingTrace {
                    start: 11,
                    width: 1,
                    description: "length:short_value".to_string(),
                    encoded_in: EncodeMethod::SingleByte,
                },
                ParsingTrace {
                    start: 12,
                    width: 109,
                    description: "short_value".to_string(),
                    encoded_in: EncodeMethod::Bytes,
                },
            ],
        ),
    ];
    for (source, expected, expected_trace) in cases {
        let result = Write::parse(&source).unwrap();
        assert_eq!(result, expected);
        let (traced, trace) = Write::parse_with_trace(&source).unwrap();
        assert_eq!(traced, expected);
        assert_eq!(trace, expected_trace);
    }
}

#[test]
fn write_round_trip_all_fields() {
    let w = Write {
        write_type: WriteType::Lock,
        start_ts: TimeStamp::from(300),
        short_value: Some(vec![9, 9]),
        has_overlapped_rollback: true,
        gc_fence: Some(TimeStamp(42)),
    };
    let bytes = w.to_bytes();
    assert_eq!(
        bytes,
        vec![76, 172, 2, 118, 2, 9, 9, 82, 70, 0, 0, 0, 0, 0, 0, 0, 42],
    );
    assert_eq!(Write::parse(&bytes).unwrap(), w);
}

#[test]
fn write_round_trip_minimal() {
    let w = Write {
        write_type: WriteType::Rollback,
        start_ts: TimeStamp(1),
        short_value: None,
        has_overlapped_rollback: false,
        gc_fence: None,
    };
    let bytes = w.to_bytes();
    assert_eq!(bytes, vec![82, 1]);
    assert_eq!(Write::parse(&bytes).unwrap(), w);
}

#[test]
fn write_forward_compatibility() {
    // A serialized record followed by an unrecognized tag byte and junk
    // still parses, exposing only the fields before the unknown tag.
    let w = Write {
        write_type: WriteType::Put,
        start_ts: TimeStamp(7),
        short_value: Some(vec![1, 2, 3]),
        has_overlapped_rollback: false,
        gc_fence: None,
    };
    let mut bytes = w.to_bytes();
    bytes.push(88);
    bytes.extend_from_slice(&[1, 2, 3, 4]);
    assert_eq!(Write::parse(&bytes).unwrap(), w);
}

#[test]
fn write_rollback_tag_doubles_as_overlapped_flag() {
    // The rollback write type and the overlapped-rollback field share the
    // same ASCII tag byte.
    let parsed = Write::parse(&[82, 0, 82]).unwrap();
    assert_eq!(parsed.write_type, WriteType::Rollback);
    assert!(parsed.has_overlapped_rollback);
    assert_eq!(WriteType::from_u8(82), Some(WriteType::Rollback));
}

#[test]
fn write_parse_errors() {
    assert_eq!(Write::parse(&[]), Err(CodecError::TruncatedInput));
    assert_eq!(Write::parse(&[88, 0]), Err(CodecError::UnknownWriteType));
    assert_eq!(Write::parse(&[80, 0x80]), Err(CodecError::MalformedVarint));
    // Short-value length byte missing.
    assert_eq!(Write::parse(&[80, 0, 118]), Err(CodecError::TruncatedInput));
    // Declared short-value length exceeds the remaining bytes.
    assert_eq!(Write::parse(&[80, 0, 118, 5, 1]), Err(CodecError::TruncatedShortValue));
    // GC fence needs eight bytes.
    assert_eq!(Write::parse(&[80, 0, 70, 1, 2]), Err(CodecError::TruncatedInput));
}

#[test]
fn write_type_tag_table() {
    assert_eq!(WriteType::from_u8(80), Some(WriteType::Put));
    assert_eq!(WriteType::from_u8(68), Some(WriteType::Delete));
    assert_eq!(WriteType::from_u8(76), Some(WriteType::Lock));
    assert_eq!(WriteType::from_u8(82), Some(WriteType::Rollback));
    assert_eq!(WriteType::from_u8(0), None);
    assert_eq!(WriteType::from_u8(119), None);
}

#[test]
fn short_value_accessor_and_mutator() {
    let mut w = Write::parse(&[80, 0]).unwrap();
    assert_eq!(w.short_value(), None);
    w.set_short_value(Some(vec![5, 6]));
    assert_eq!(w.short_value(), Some(vec![5, 6]));
    assert_eq!(w.to_bytes(), vec![80, 0, 118, 2, 5, 6]);
    w.set_short_value(None);
    assert_eq!(w.to_bytes(), vec![80, 0]);
}

#[test]
fn trace_description_getter() {
    let (_, trace) = Write::parse_with_trace(&[80, 0]).unwrap();
    assert_eq!(trace.len(), 2);
    assert_eq!(trace[0].description(), "write_type");
    assert_eq!(trace[1].description(), "start_ts");
}

#[test]
fn trace_gc_fence_entries() {
    let bytes = vec![80, 0, 70, 0, 0, 0, 0, 0, 0, 0, 9];
    let (w, trace) = Write::parse_with_trace(&bytes).unwrap();
    assert_eq!(w.gc_fence, Some(TimeStamp(9)));
    assert_eq!(trace.len(), 4);
    assert_eq!((trace[2].start, trace[2].width), (2, 1));
    assert_eq!(trace[2].description(), "flag:gc_fence");
    assert_eq!((trace[3].start, trace[3].width), (3, 8));
    assert_eq!(trace[3].description(), "gc_fence");
    assert_eq!(trace[3].encoded_in, EncodeMethod::BigEndian);
}

#[test]
fn trace_overlapped_rollback_entry() {
    let (w, trace) = Write::parse_with_trace(&[68, 3, 82]).unwrap();
    assert_eq!(w.write_type, WriteType::Delete);
    assert!(w.has_overlapped_rollback);
    assert_eq!(trace.len(), 3);
    assert_eq!((trace[2].start, trace[2].width), (2, 1));
    assert_eq!(trace[2].description(), "flag:overlapped_rollback");
}
