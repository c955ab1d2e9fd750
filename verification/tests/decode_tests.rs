//! Scheduling and decoding tests over in-memory file images.

use lance_encoding::buffers::{ColumnBuffers, FileBuffers, PageBuffers};
use lance_encoding::datatype::{Field, LogicalType};
use lance_encoding::decoded::DecodedArray;
use lance_encoding::errors::ExecutionError;
use lance_encoding::fetched::fetch;
use lance_encoding::format::{ArrayEncoding, Buffer, BufferType, Flat, Nullability, PackedStruct};
use lance_encoding::physical::decoder_from_array_encoding;
use lance_encoding::scheduler::PageScheduler;

fn page_buffers(positions_and_sizes: Vec<(u64, u64)>) -> PageBuffers {
    PageBuffers {
        column_buffers: ColumnBuffers {
            file_buffers: FileBuffers { positions_and_sizes: vec![] },
            positions_and_sizes: vec![],
        },
        positions_and_sizes,
    }
}

fn flat(buffer_index: u64, bits_per_value: u64) -> ArrayEncoding {
    ArrayEncoding::Flat(Flat {
        buffer: Some(Buffer { buffer_index, buffer_type: BufferType::Page }),
        bits_per_value,
        compression: None,
    })
}

/// Build the scheduler, plan the range, fetch the plan from the file, and
/// decode: the whole read path over an in-memory image.
fn round_trip(
    enc: &ArrayEncoding,
    buffers: &PageBuffers,
    data_type: &LogicalType,
    file: &Vec<u8>,
    start: u64,
    end: u64,
) -> Result<DecodedArray, ExecutionError> {
    let scheduler = decoder_from_array_encoding(enc, buffers, data_type).unwrap();
    let plan = scheduler.schedule(start, end)?;
    let fetched = fetch(file, &plan)?;
    scheduler.decode(&fetched, start, end)
}

#[test]
fn test_value_decode_reproduces_bytes() {
    // 8 rows of 2 bytes each at offset 4
    let file: Vec<u8> = (0u8..20u8).collect();
    let enc = flat(0, 16);
    let buffers = page_buffers(vec![(4, 16)]);
    let out = round_trip(&enc, &buffers, &LogicalType::UInt16, &file, 2, 5).unwrap();
    match out {
        DecodedArray::Fixed { bytes_per_value, data } => {
            assert_eq!(bytes_per_value, 2);
            assert_eq!(data, vec![8, 9, 10, 11, 12, 13]);
        }
        other => panic!("expected fixed rows, got {:?}", other),
    }
    // the empty range decodes to no bytes
    let out = round_trip(&enc, &buffers, &LogicalType::UInt16, &file, 3, 3).unwrap();
    match out {
        DecodedArray::Fixed { data, .. } => assert_eq!(data.len(), 0),
        other => panic!("expected fixed rows, got {:?}", other),
    }
    // the full range reproduces the whole buffer
    let out = round_trip(&enc, &buffers, &LogicalType::UInt16, &file, 0, 8).unwrap();
    match out {
        DecodedArray::Fixed { data, .. } => assert_eq!(data, (4u8..20u8).collect::<Vec<u8>>()),
        other => panic!("expected fixed rows, got {:?}", other),
    }
}

#[test]
fn test_value_row_range_out_of_bounds() {
    let file: Vec<u8> = (0u8..20u8).collect();
    let enc = flat(0, 16);
    let buffers = page_buffers(vec![(4, 16)]);
    let r = round_trip(&enc, &buffers, &LogicalType::UInt16, &file, 0, 9);
    assert!(matches!(r, Err(ExecutionError::RowRangeOutOfBounds)));
}

#[test]
fn test_compressed_value_needs_runtime_codec() {
    let file: Vec<u8> = vec![1, 2, 3, 4];
    let enc = ArrayEncoding::Flat(Flat {
        buffer: Some(Buffer { buffer_index: 0, buffer_type: BufferType::Page }),
        bits_per_value: 8,
        compression: Some(lance_encoding::format::Compression {
            scheme: "zstd".to_string(),
            level: Some(1),
        }),
    });
    let buffers = page_buffers(vec![(0, 4)]);
    let r = round_trip(&enc, &buffers, &LogicalType::UInt8, &file, 0, 4);
    assert!(matches!(r, Err(ExecutionError::NoEmbeddedCodec)));
}

#[test]
fn test_bitmap_decode() {
    // bits of 0b1010_0110 = bits (lsb first) 0,1,1,0,0,1,0,1
    let file: Vec<u8> = vec![0b1010_0110, 0b0000_0001];
    let enc = flat(0, 1);
    let buffers = page_buffers(vec![(0, 2)]);
    let out = round_trip(&enc, &buffers, &LogicalType::Boolean, &file, 0, 9).unwrap();
    match out {
        DecodedArray::Boolean { values } => {
            assert_eq!(
                values,
                vec![false, true, true, false, false, true, false, true, true]
            );
        }
        other => panic!("expected booleans, got {:?}", other),
    }
    // a sub-range lands on the same bits
    let out = round_trip(&enc, &buffers, &LogicalType::Boolean, &file, 5, 8).unwrap();
    match out {
        DecodedArray::Boolean { values } => assert_eq!(values, vec![true, false, true]),
        other => panic!("expected booleans, got {:?}", other),
    }
}

#[test]
fn test_some_nulls_alternating_bitmap() {
    // 104 rows: validity bitmap alternating 1,0,1,0,..., one byte per value
    let num_rows: usize = 104;
    let mut file: Vec<u8> = vec![0b0101_0101; num_rows / 8];
    let values_offset = file.len() as u64;
    for i in 0..num_rows {
        file.push(i as u8);
    }
    let enc = ArrayEncoding::Nullable(Nullability::SomeNulls {
        validity: Box::new(flat(0, 1)),
        values: Box::new(flat(1, 8)),
    });
    let buffers = page_buffers(vec![(0, num_rows as u64 / 8), (values_offset, num_rows as u64)]);
    let out = round_trip(&enc, &buffers, &LogicalType::UInt8, &file, 0, num_rows as u64).unwrap();
    match out {
        DecodedArray::Nullable { validity, values } => {
            assert_eq!(validity.len(), num_rows);
            for i in 0..num_rows {
                // even rows defined, odd rows null
                assert_eq!(validity[i], i % 2 == 0);
            }
            match *values {
                DecodedArray::Fixed { bytes_per_value, data } => {
                    assert_eq!(bytes_per_value, 1);
                    assert_eq!(data.len(), num_rows);
                }
                other => panic!("expected fixed rows, got {:?}", other),
            }
        }
        other => panic!("expected a nullable array, got {:?}", other),
    }
}

#[test]
fn test_no_nulls_delegates() {
    let file: Vec<u8> = vec![7, 8, 9];
    let enc = ArrayEncoding::Nullable(Nullability::NoNulls { values: Box::new(flat(0, 8)) });
    let buffers = page_buffers(vec![(0, 3)]);
    let out = round_trip(&enc, &buffers, &LogicalType::UInt8, &file, 0, 3).unwrap();
    match out {
        DecodedArray::Fixed { data, .. } => assert_eq!(data, vec![7, 8, 9]),
        other => panic!("expected the inner array itself, got {:?}", other),
    }
}

#[test]
fn test_all_nulls() {
    let file: Vec<u8> = vec![];
    let enc = ArrayEncoding::Nullable(Nullability::AllNulls);
    let buffers = page_buffers(vec![]);
    let out = round_trip(&enc, &buffers, &LogicalType::UInt8, &file, 2, 7).unwrap();
    match out {
        DecodedArray::AllNull { num_rows } => assert_eq!(num_rows, 5),
        other => panic!("expected all-null rows, got {:?}", other),
    }
}

#[test]
fn test_fixed_size_list_exposes_logical_rows() {
    // 9 item rows of one byte each, dimension 3: 3 logical rows
    let file: Vec<u8> = vec![10, 11, 12, 20, 21, 22, 30, 31, 32];
    let enc = ArrayEncoding::FixedSizeList { items: Box::new(flat(0, 8)), dimension: 3 };
    let buffers = page_buffers(vec![(0, 9)]);
    let out = round_trip(&enc, &buffers, &LogicalType::UInt8, &file, 0, 3).unwrap();
    match out {
        DecodedArray::FixedSizeListArray { dimension, items } => {
            assert_eq!(dimension, 3);
            assert_eq!(items.row_count(), 9);
        }
        other => panic!("expected a fixed-size-list array, got {:?}", other),
    }
    // logical row range [1, 2) translates to item row range [3, 6)
    let scheduler = decoder_from_array_encoding(&enc, &buffers, &LogicalType::UInt8).unwrap();
    let plan = scheduler.schedule(1, 2).unwrap();
    assert_eq!(plan, vec![(3, 3)]);
    let out = round_trip(&enc, &buffers, &LogicalType::UInt8, &file, 1, 2).unwrap();
    match out {
        DecodedArray::FixedSizeListArray { items, .. } => match *items {
            DecodedArray::Fixed { data, .. } => assert_eq!(data, vec![20, 21, 22]),
            other => panic!("expected fixed rows, got {:?}", other),
        },
        other => panic!("expected a fixed-size-list array, got {:?}", other),
    }
}

#[test]
fn test_dictionary_materializes_values() {
    // items: 3 one-byte values [100, 101, 102]; indices: 5 one-byte rows
    let file: Vec<u8> = vec![2, 0, 1, 1, 2, 100, 101, 102];
    let enc = ArrayEncoding::Dictionary {
        indices: Box::new(flat(0, 8)),
        items: Box::new(flat(1, 8)),
        num_dictionary_items: 3,
    };
    let buffers = page_buffers(vec![(0, 5), (5, 3)]);
    // a plain logical type wants materialized values
    let out = round_trip(&enc, &buffers, &LogicalType::UInt8, &file, 0, 5).unwrap();
    match out {
        DecodedArray::Fixed { bytes_per_value, data } => {
            assert_eq!(bytes_per_value, 1);
            // items[indices[row]] for every row
            assert_eq!(data, vec![102, 100, 101, 101, 102]);
        }
        other => panic!("expected materialized values, got {:?}", other),
    }
    // a dictionary logical type wants the raw pair
    let dict_type =
        LogicalType::Dictionary(Box::new(LogicalType::UInt8), Box::new(LogicalType::UInt8));
    let out = round_trip(&enc, &buffers, &dict_type, &file, 0, 5).unwrap();
    match out {
        DecodedArray::DictionaryArray { indices, items } => {
            match *indices {
                DecodedArray::Fixed { data, .. } => assert_eq!(data, vec![2, 0, 1, 1, 2]),
                other => panic!("expected raw indices, got {:?}", other),
            }
            match *items {
                DecodedArray::Fixed { data, .. } => assert_eq!(data, vec![100, 101, 102]),
                other => panic!("expected the items array, got {:?}", other),
            }
        }
        other => panic!("expected the raw pair, got {:?}", other),
    }
}

#[test]
fn test_dictionary_index_out_of_bounds() {
    let file: Vec<u8> = vec![9, 100, 101, 102];
    let enc = ArrayEncoding::Dictionary {
        indices: Box::new(flat(0, 8)),
        items: Box::new(flat(1, 8)),
        num_dictionary_items: 3,
    };
    let buffers = page_buffers(vec![(0, 1), (1, 3)]);
    let r = round_trip(&enc, &buffers, &LogicalType::UInt8, &file, 0, 1);
    assert!(matches!(r, Err(ExecutionError::DictionaryIndexOutOfBounds)));
}

fn binary_page(values: &[Option<&[u8]>], null_adjustment: u64) -> (Vec<u8>, ArrayEncoding, PageBuffers) {
    // encode: 4-byte little-endian adjusted offsets, then the data bytes
    let mut offsets: Vec<u8> = Vec::new();
    let mut data: Vec<u8> = Vec::new();
    let mut cum: u64 = 0;
    for v in values {
        match v {
            Some(bytes) => {
                data.extend_from_slice(bytes);
                cum += bytes.len() as u64;
                offsets.extend_from_slice(&(cum as u32).to_le_bytes());
            }
            None => {
                offsets.extend_from_slice(&((cum + null_adjustment) as u32).to_le_bytes());
            }
        }
    }
    let offsets_len = offsets.len() as u64;
    let mut file = offsets;
    file.extend_from_slice(&data);
    let enc = ArrayEncoding::Binary {
        indices: Box::new(flat(0, 32)),
        bytes: Box::new(flat(1, 8)),
        null_adjustment,
    };
    let buffers = page_buffers(vec![(0, offsets_len), (offsets_len, data.len() as u64)]);
    (file, enc, buffers)
}

#[test]
fn test_binary_decode_substrings() {
    let rows: Vec<Option<&[u8]>> = vec![
        Some(b"foo"),
        Some(b""),
        None,
        Some(b"ba\0r"),
        Some(b"z"),
    ];
    let (file, enc, buffers) = binary_page(&rows, 1000);
    let out = round_trip(&enc, &buffers, &LogicalType::Utf8, &file, 0, 5).unwrap();
    match out {
        DecodedArray::VarBin { values } => {
            assert_eq!(values.len(), 5);
            assert_eq!(values[0].as_deref(), Some(b"foo".as_slice()));
            assert_eq!(values[1].as_deref(), Some(b"".as_slice()));
            assert_eq!(values[2], None);
            assert_eq!(values[3].as_deref(), Some(b"ba\0r".as_slice()));
            assert_eq!(values[4].as_deref(), Some(b"z".as_slice()));
        }
        other => panic!("expected variable-width rows, got {:?}", other),
    }
    // a (start, end) sub-range returns exactly the substrings of consecutive
    // offsets
    let out = round_trip(&enc, &buffers, &LogicalType::Utf8, &file, 3, 5).unwrap();
    match out {
        DecodedArray::VarBin { values } => {
            assert_eq!(values.len(), 2);
            assert_eq!(values[0].as_deref(), Some(b"ba\0r".as_slice()));
            assert_eq!(values[1].as_deref(), Some(b"z".as_slice()));
        }
        other => panic!("expected variable-width rows, got {:?}", other),
    }
}

#[test]
fn test_bitpacked_decode() {
    // 4 rows packed at 3 bits each: values 5, 2, 7, 1
    // bits lsb-first: 101 010 111 100 -> byte0 = 0b11010101, byte1 = 0b0000_0110... wait
    // row0=5 (101), row1=2 (010), row2=7 (111), row3=1 (100 lsb-first = value 1)
    // stream lsb-first: 1,0,1, 0,1,0, 1,1,1, 1,0,0
    // byte0 bits 0..7: 1,0,1,0,1,0,1,1 -> 0b1101_0101 = 0xD5
    // byte1 bits 0..3: 1,1,0,0 -> 0b0000_0011 = 0x03
    let file: Vec<u8> = vec![0xD5, 0x03];
    let enc = ArrayEncoding::BitpackedForNonNeg(lance_encoding::format::BitpackedForNonNeg {
        buffer: Some(Buffer { buffer_index: 0, buffer_type: BufferType::Page }),
        compressed_bits_per_value: 3,
        uncompressed_bits_per_value: 16,
    });
    let buffers = page_buffers(vec![(0, 2)]);
    let out = round_trip(&enc, &buffers, &LogicalType::UInt16, &file, 0, 4).unwrap();
    match out {
        DecodedArray::Fixed { bytes_per_value, data } => {
            assert_eq!(bytes_per_value, 2);
            assert_eq!(data, vec![5, 0, 2, 0, 7, 0, 1, 0]);
        }
        other => panic!("expected fixed rows, got {:?}", other),
    }
}

#[test]
fn test_bitpacked_sign_extension() {
    // 2 rows packed at 3 bits: 0b101 = -3 signed; 0b010 = 2
    // stream: 1,0,1, 0,1,0 -> byte 0b0001_0101 = 0x15
    let file: Vec<u8> = vec![0x15];
    let enc = ArrayEncoding::Bitpacked(lance_encoding::format::Bitpacked {
        buffer: Some(Buffer { buffer_index: 0, buffer_type: BufferType::Page }),
        compressed_bits_per_value: 3,
        uncompressed_bits_per_value: 8,
        signed: true,
    });
    let buffers = page_buffers(vec![(0, 1)]);
    let out = round_trip(&enc, &buffers, &LogicalType::Int8, &file, 0, 2).unwrap();
    match out {
        DecodedArray::Fixed { bytes_per_value, data } => {
            assert_eq!(bytes_per_value, 1);
            assert_eq!(data[0], 0xFDu8);  // -3 as two's complement
            assert_eq!(data[1], 2);
        }
        other => panic!("expected fixed rows, got {:?}", other),
    }
}

#[test]
fn test_fsst_decode_expands_symbols() {
    // symbol table: 2 symbols, "ab" and "cde"
    let symbol_table: Vec<u8> = vec![2, 2, b'a', b'b', 3, b'c', b'd', b'e'];
    // one row compressed as [0, 1, 255, b'!', 0] -> "abcde!ab"
    let rows: Vec<Option<&[u8]>> = vec![Some(&[0, 1, 255, b'!', 0]), None];
    let (file, inner, buffers) = binary_page(&rows, 1000);
    let enc = ArrayEncoding::Fsst { binary: Box::new(inner), symbol_table };
    let out = round_trip(&enc, &buffers, &LogicalType::Utf8, &file, 0, 2).unwrap();
    match out {
        DecodedArray::VarBin { values } => {
            assert_eq!(values[0].as_deref(), Some(b"abcde!ab".as_slice()));
            assert_eq!(values[1], None);
        }
        other => panic!("expected variable-width rows, got {:?}", other),
    }
}

#[test]
fn test_packed_struct_decode_splits_fields() {
    // two fields: u16 and u8, stride 3, three rows at offset 1
    let file: Vec<u8> = vec![
        0xEE, // padding before the buffer
        0x01, 0x02, 0xAA, // row 0
        0x03, 0x04, 0xBB, // row 1
        0x05, 0x06, 0xCC, // row 2
    ];
    let enc = ArrayEncoding::PackedStruct(PackedStruct {
        inner: vec![flat(0, 16), flat(0, 8)],
        buffer: Some(Buffer { buffer_index: 1, buffer_type: BufferType::Page }),
    });
    let fields = LogicalType::Struct(vec![
        Field { name: "a".to_string(), data_type: LogicalType::UInt16 },
        Field { name: "b".to_string(), data_type: LogicalType::UInt8 },
    ]);
    let buffers = page_buffers(vec![(1, 9), (1, 9)]);
    let out = round_trip(&enc, &buffers, &fields, &file, 0, 3).unwrap();
    match out {
        DecodedArray::StructArray { fields } => {
            assert_eq!(fields.len(), 2);
            match &fields[0] {
                DecodedArray::Fixed { bytes_per_value, data } => {
                    assert_eq!(*bytes_per_value, 2);
                    assert_eq!(*data, vec![0x01, 0x02, 0x03, 0x04, 0x05, 0x06]);
                }
                other => panic!("expected fixed rows, got {:?}", other),
            }
            match &fields[1] {
                DecodedArray::Fixed { bytes_per_value, data } => {
                    assert_eq!(*bytes_per_value, 1);
                    assert_eq!(*data, vec![0xAA, 0xBB, 0xCC]);
                }
                other => panic!("expected fixed rows, got {:?}", other),
            }
        }
        other => panic!("expected a struct array, got {:?}", other),
    }
    // the middle row alone
    let out = round_trip(&enc, &buffers, &fields, &file, 1, 2).unwrap();
    match out {
        DecodedArray::StructArray { fields } => match &fields[0] {
            DecodedArray::Fixed { data, .. } => assert_eq!(*data, vec![0x03, 0x04]),
            other => panic!("expected fixed rows, got {:?}", other),
        },
        other => panic!("expected a struct array, got {:?}", other),
    }
}

#[test]
fn test_fixed_size_binary_decode() {
    let file: Vec<u8> = vec![1, 2, 3, 4, 5, 6, 7, 8];
    let enc = ArrayEncoding::FixedSizeBinary { bytes: Box::new(flat(0, 8)), byte_width: 4 };
    let buffers = page_buffers(vec![(0, 8)]);
    let out = round_trip(&enc, &buffers, &LogicalType::Binary, &file, 1, 2).unwrap();
    match out {
        DecodedArray::Fixed { bytes_per_value, data } => {
            assert_eq!(bytes_per_value, 4);
            assert_eq!(data, vec![5, 6, 7, 8]);
        }
        other => panic!("expected fixed rows, got {:?}", other),
    }
}

#[test]
fn test_missing_fetch_is_loud() {
    // hand the decoder data for the wrong range: the read is reported missing
    let file: Vec<u8> = (0u8..16u8).collect();
    let enc = flat(0, 8);
    let buffers = page_buffers(vec![(0, 16)]);
    let scheduler = decoder_from_array_encoding(&enc, &buffers, &LogicalType::UInt8).unwrap();
    let plan = scheduler.schedule(0, 4).unwrap();
    let fetched = fetch(&file, &plan).unwrap();
    // rows 8..12 were never planned nor fetched
    let r = scheduler.decode(&fetched, 8, 12);
    assert!(matches!(r, Err(ExecutionError::MissingData { .. })));
}

#[test]
fn test_fetch_rejects_ranges_past_the_file() {
    let file: Vec<u8> = vec![0; 4];
    let r = fetch(&file, &vec![(2, 10)]);
    assert!(matches!(r, Err(ExecutionError::MissingData { offset: 2, length: 10 })));
}

#[test]
fn test_schedule_range_overflow() {
    let enc = flat(0, 64);
    let buffers = page_buffers(vec![(u64::MAX - 4, 16)]);
    let scheduler = decoder_from_array_encoding(&enc, &buffers, &LogicalType::UInt64).unwrap();
    let r = scheduler.schedule(0, 2);
    assert!(matches!(r, Err(ExecutionError::RangeOverflow)));
}

#[test]
fn test_unexpected_layout_for_non_bitmap_validity() {
    // a validity child that decodes to bytes rather than booleans
    let file: Vec<u8> = vec![1, 2, 3, 4, 5, 6];
    let enc = ArrayEncoding::Nullable(Nullability::SomeNulls {
        validity: Box::new(flat(0, 8)),
        values: Box::new(flat(1, 8)),
    });
    let buffers = page_buffers(vec![(0, 3), (3, 3)]);
    let r = round_trip(&enc, &buffers, &LogicalType::UInt8, &file, 0, 3);
    assert!(matches!(r, Err(ExecutionError::UnexpectedArrayLayout)));
}

#[test]
fn test_binary_corrupt_offsets() {
    // offsets running backwards: 3, then 1
    let mut file: Vec<u8> = Vec::new();
    file.extend_from_slice(&3u32.to_le_bytes());
    file.extend_from_slice(&1u32.to_le_bytes());
    file.extend_from_slice(b"abc");
    let enc = ArrayEncoding::Binary {
        indices: Box::new(flat(0, 32)),
        bytes: Box::new(flat(1, 8)),
        null_adjustment: 1000,
    };
    let buffers = page_buffers(vec![(0, 8), (8, 3)]);
    let r = round_trip(&enc, &buffers, &LogicalType::Utf8, &file, 0, 2);
    assert!(matches!(r, Err(ExecutionError::CorruptOffsets)));
}

#[test]
fn test_binary_zero_null_adjustment() {
    let rows: Vec<Option<&[u8]>> = vec![Some(b"x")];
    let (file, _, buffers) = binary_page(&rows, 1000);
    let enc = ArrayEncoding::Binary {
        indices: Box::new(flat(0, 32)),
        bytes: Box::new(flat(1, 8)),
        null_adjustment: 0,
    };
    let r = round_trip(&enc, &buffers, &LogicalType::Utf8, &file, 0, 1);
    assert!(matches!(r, Err(ExecutionError::ZeroNullAdjustment)));
}

#[test]
fn test_fsst_corrupt_symbol_table() {
    // the table announces two symbols but holds one
    let symbol_table: Vec<u8> = vec![2, 2, b'a', b'b'];
    let rows: Vec<Option<&[u8]>> = vec![Some(&[0])];
    let (file, inner, buffers) = binary_page(&rows, 1000);
    let enc = ArrayEncoding::Fsst { binary: Box::new(inner), symbol_table };
    let r = round_trip(&enc, &buffers, &LogicalType::Utf8, &file, 0, 1);
    assert!(matches!(r, Err(ExecutionError::CorruptSymbolTable)));
    // a compressed byte naming no symbol is corrupt too
    let symbol_table: Vec<u8> = vec![1, 2, b'a', b'b'];
    let rows: Vec<Option<&[u8]>> = vec![Some(&[7])];
    let (file, inner, buffers) = binary_page(&rows, 1000);
    let enc = ArrayEncoding::Fsst { binary: Box::new(inner), symbol_table };
    let r = round_trip(&enc, &buffers, &LogicalType::Utf8, &file, 0, 1);
    assert!(matches!(r, Err(ExecutionError::CorruptSymbolTable)));
}
