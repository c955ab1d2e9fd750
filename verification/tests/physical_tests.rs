//! Construction tests: the interpreter against descriptor trees and buffer
//! tables.

use lance_encoding::buffers::{ColumnBuffers, FileBuffers, PageBuffers};
use lance_encoding::compression::{CompressionConfig, CompressionScheme};
use lance_encoding::datatype::{Field, LogicalType};
use lance_encoding::errors::ConstructionError;
use lance_encoding::format::{
    ArrayEncoding, Bitpacked, Buffer, BufferType, Compression, Flat, Nullability, PackedStruct,
};
use lance_encoding::buffers::get_buffer;
use lance_encoding::physical::{
    decoder_from_array_encoding, get_bitpacked_buffer_decoder, get_buffer_decoder,
};
use lance_encoding::scheduler::{BasicPageScheduler, PageScheduler};

fn empty_buffers() -> PageBuffers {
    PageBuffers {
        column_buffers: ColumnBuffers {
            file_buffers: FileBuffers { positions_and_sizes: vec![] },
            positions_and_sizes: vec![],
        },
        positions_and_sizes: vec![],
    }
}

fn file_buffers(positions_and_sizes: Vec<(u64, u64)>) -> PageBuffers {
    PageBuffers {
        column_buffers: ColumnBuffers {
            file_buffers: FileBuffers { positions_and_sizes },
            positions_and_sizes: vec![],
        },
        positions_and_sizes: vec![],
    }
}

fn page_buffers(positions_and_sizes: Vec<(u64, u64)>) -> PageBuffers {
    PageBuffers {
        column_buffers: ColumnBuffers {
            file_buffers: FileBuffers { positions_and_sizes: vec![] },
            positions_and_sizes: vec![],
        },
        positions_and_sizes,
    }
}

fn flat(buffer_index: u64, buffer_type: BufferType, bits_per_value: u64) -> Flat {
    Flat {
        buffer: Some(Buffer { buffer_index, buffer_type }),
        bits_per_value,
        compression: None,
    }
}

#[test]
fn test_get_buffer_decoder_for_compressed_buffer() {
    let page_scheduler = get_buffer_decoder(
        &Flat {
            buffer: Some(Buffer { buffer_index: 0, buffer_type: BufferType::File }),
            bits_per_value: 8,
            compression: Some(Compression { scheme: "zstd".to_string(), level: Some(0) }),
        },
        &file_buffers(vec![(0, 100)]),
    )
    .unwrap();
    match page_scheduler {
        PageScheduler::Value(v) => {
            assert_eq!(
                format!("{:?}", v).as_str(),
                "ValuePageScheduler { bytes_per_value: 1, buffer_offset: 0, buffer_size: 100, compression_config: CompressionConfig { scheme: Zstd, level: Some(0) } }"
            );
            assert_eq!(v.bytes_per_value, 1);
            assert_eq!(v.buffer_offset, 0);
            assert_eq!(v.buffer_size, 100);
            assert_eq!(
                v.compression_config,
                CompressionConfig { scheme: CompressionScheme::Zstd, level: Some(0) }
            );
        }
        other => panic!("expected a value strategy, got {:?}", other),
    }
}

#[test]
fn test_flat_bit_width_seventeen_fails() {
    let r = get_buffer_decoder(&flat(0, BufferType::Page, 17), &page_buffers(vec![(0, 100)]));
    assert!(matches!(
        r,
        Err(ConstructionError::UnsupportedBitWidth { bits_per_value: 17 })
    ));
}

#[test]
fn test_flat_bit_width_zero_fails() {
    let r = get_buffer_decoder(&flat(0, BufferType::Page, 0), &page_buffers(vec![(0, 100)]));
    assert!(matches!(
        r,
        Err(ConstructionError::UnsupportedBitWidth { bits_per_value: 0 })
    ));
}

#[test]
fn test_buffer_index_out_of_bounds_fails() {
    let r = get_buffer(
        &Buffer { buffer_index: 3, buffer_type: BufferType::Page },
        &page_buffers(vec![(0, 10), (10, 20)]),
    );
    assert!(matches!(
        r,
        Err(ConstructionError::BufferIndexOutOfBounds { buffer_index: 3, table_len: 2 })
    ));
    // the same failure surfaces from the interpreter, before any scheduling
    let r = decoder_from_array_encoding(
        &ArrayEncoding::Flat(flat(3, BufferType::Page, 8)),
        &page_buffers(vec![(0, 10), (10, 20)]),
        &LogicalType::Int64,
    );
    assert!(matches!(
        r,
        Err(ConstructionError::BufferIndexOutOfBounds { buffer_index: 3, table_len: 2 })
    ));
}

#[test]
fn test_get_buffer_resolves_each_scope() {
    let buffers = PageBuffers {
        column_buffers: ColumnBuffers {
            file_buffers: FileBuffers { positions_and_sizes: vec![(1, 2)] },
            positions_and_sizes: vec![(3, 4)],
        },
        positions_and_sizes: vec![(5, 6)],
    };
    assert_eq!(
        get_buffer(&Buffer { buffer_index: 0, buffer_type: BufferType::File }, &buffers).unwrap(),
        (1, 2)
    );
    assert_eq!(
        get_buffer(&Buffer { buffer_index: 0, buffer_type: BufferType::Column }, &buffers).unwrap(),
        (3, 4)
    );
    assert_eq!(
        get_buffer(&Buffer { buffer_index: 0, buffer_type: BufferType::Page }, &buffers).unwrap(),
        (5, 6)
    );
}

#[test]
fn test_missing_buffer_fails() {
    let r = get_buffer_decoder(
        &Flat { buffer: None, bits_per_value: 8, compression: None },
        &empty_buffers(),
    );
    assert!(matches!(r, Err(ConstructionError::MissingBuffer)));
}

#[test]
fn test_unknown_compression_scheme_fails() {
    let r = get_buffer_decoder(
        &Flat {
            buffer: Some(Buffer { buffer_index: 0, buffer_type: BufferType::Page }),
            bits_per_value: 8,
            compression: Some(Compression { scheme: "mystery".to_string(), level: None }),
        },
        &page_buffers(vec![(0, 100)]),
    );
    assert!(matches!(r, Err(ConstructionError::UnknownCompressionScheme)));
}

#[test]
fn test_bitmap_sentinel_bit_width() {
    let r = get_buffer_decoder(&flat(0, BufferType::Page, 1), &page_buffers(vec![(40, 100)]));
    match r.unwrap() {
        PageScheduler::DenseBitmap(b) => assert_eq!(b.buffer_offset, 40),
        other => panic!("expected a dense bitmap strategy, got {:?}", other),
    }
}

#[test]
fn test_bitpacked_decoder_widths() {
    let r = get_bitpacked_buffer_decoder(
        &Bitpacked {
            buffer: Some(Buffer { buffer_index: 0, buffer_type: BufferType::Page }),
            compressed_bits_per_value: 5,
            uncompressed_bits_per_value: 32,
            signed: true,
        },
        &page_buffers(vec![(8, 64)]),
    );
    match r.unwrap() {
        PageScheduler::Bitpacked(b) => {
            assert_eq!(b.compressed_bits_per_value, 5);
            assert_eq!(b.uncompressed_bits_per_value, 32);
            assert_eq!(b.buffer_offset, 8);
            assert!(b.signed);
        }
        other => panic!("expected a bit-packed strategy, got {:?}", other),
    }
    let r = get_bitpacked_buffer_decoder(
        &Bitpacked {
            buffer: Some(Buffer { buffer_index: 0, buffer_type: BufferType::Page }),
            compressed_bits_per_value: 40,
            uncompressed_bits_per_value: 32,
            signed: false,
        },
        &page_buffers(vec![(8, 64)]),
    );
    assert!(matches!(
        r,
        Err(ConstructionError::UnsupportedBitpackWidth {
            compressed_bits_per_value: 40,
            uncompressed_bits_per_value: 32,
        })
    ));
}

#[test]
fn test_nullable_composition() {
    let enc = ArrayEncoding::Nullable(Nullability::SomeNulls {
        validity: Box::new(ArrayEncoding::Flat(flat(0, BufferType::Page, 1))),
        values: Box::new(ArrayEncoding::Flat(flat(1, BufferType::Page, 32))),
    });
    let r = decoder_from_array_encoding(
        &enc,
        &page_buffers(vec![(0, 13), (13, 400)]),
        &LogicalType::Int32,
    )
    .unwrap();
    match r {
        PageScheduler::Basic(BasicPageScheduler::SomeNulls { validity, values }) => {
            assert!(matches!(*validity, PageScheduler::DenseBitmap(_)));
            match *values {
                PageScheduler::Value(v) => assert_eq!(v.bytes_per_value, 4),
                other => panic!("expected a value strategy, got {:?}", other),
            }
        }
        other => panic!("expected a nullable wrapper, got {:?}", other),
    }
}

#[test]
fn test_struct_node_is_a_defect() {
    let r = decoder_from_array_encoding(
        &ArrayEncoding::Struct,
        &empty_buffers(),
        &LogicalType::Int32,
    );
    assert!(matches!(r, Err(ConstructionError::UnexpectedStructNode)));
}

#[test]
fn test_dictionary_threads_value_type() {
    // dictionary-typed column: the caller wants the dictionary itself
    let enc = ArrayEncoding::Dictionary {
        indices: Box::new(ArrayEncoding::Flat(flat(0, BufferType::Page, 8))),
        items: Box::new(ArrayEncoding::Flat(flat(1, BufferType::Page, 32))),
        num_dictionary_items: 3,
    };
    let dict_type = LogicalType::Dictionary(
        Box::new(LogicalType::UInt8),
        Box::new(LogicalType::Int32),
    );
    match decoder_from_array_encoding(&enc, &page_buffers(vec![(0, 4), (4, 12)]), &dict_type)
        .unwrap()
    {
        PageScheduler::Dictionary(d) => {
            assert!(!d.should_decode_dict);
            assert_eq!(d.num_dictionary_items, 3);
        }
        other => panic!("expected a dictionary strategy, got {:?}", other),
    }
    // plain column: dictionary encoding is only a storage optimization
    match decoder_from_array_encoding(
        &enc,
        &page_buffers(vec![(0, 4), (4, 12)]),
        &LogicalType::Int32,
    )
    .unwrap()
    {
        PageScheduler::Dictionary(d) => assert!(d.should_decode_dict),
        other => panic!("expected a dictionary strategy, got {:?}", other),
    }
}

#[test]
fn test_binary_offset_width_follows_type() {
    let enc = ArrayEncoding::Binary {
        indices: Box::new(ArrayEncoding::Flat(flat(0, BufferType::Page, 64))),
        bytes: Box::new(ArrayEncoding::Flat(flat(1, BufferType::Page, 8))),
        null_adjustment: 1000,
    };
    let buffers = page_buffers(vec![(0, 32), (32, 64)]);
    match decoder_from_array_encoding(&enc, &buffers, &LogicalType::LargeUtf8).unwrap() {
        PageScheduler::Binary(b) => {
            assert!(matches!(b.offset_type, LogicalType::Int64));
            assert_eq!(b.null_adjustment, 1000);
        }
        other => panic!("expected a binary strategy, got {:?}", other),
    }
    match decoder_from_array_encoding(&enc, &buffers, &LogicalType::Utf8).unwrap() {
        PageScheduler::Binary(b) => assert!(matches!(b.offset_type, LogicalType::Int32)),
        other => panic!("expected a binary strategy, got {:?}", other),
    }
}

#[test]
fn test_fixed_size_binary_rejects_non_binary_type() {
    let enc = ArrayEncoding::FixedSizeBinary {
        bytes: Box::new(ArrayEncoding::Flat(flat(0, BufferType::Page, 8))),
        byte_width: 4,
    };
    let buffers = page_buffers(vec![(0, 64)]);
    let r = decoder_from_array_encoding(&enc, &buffers, &LogicalType::Int32);
    assert!(matches!(
        r,
        Err(ConstructionError::UnsupportedFixedSizeBinaryType)
    ));
    match decoder_from_array_encoding(&enc, &buffers, &LogicalType::LargeBinary).unwrap() {
        PageScheduler::FixedSizeBinary(f) => {
            assert_eq!(f.byte_width, 4);
            assert_eq!(f.bytes_per_offset, 8);
        }
        other => panic!("expected a fixed-size-binary strategy, got {:?}", other),
    }
}

#[test]
fn test_packed_struct_field_count_mismatch() {
    let enc = ArrayEncoding::PackedStruct(PackedStruct {
        inner: vec![ArrayEncoding::Flat(flat(0, BufferType::Page, 32))],
        buffer: Some(Buffer { buffer_index: 0, buffer_type: BufferType::Page }),
    });
    let two_fields = LogicalType::Struct(vec![
        Field { name: "a".to_string(), data_type: LogicalType::Int32 },
        Field { name: "b".to_string(), data_type: LogicalType::UInt16 },
    ]);
    let r = decoder_from_array_encoding(&enc, &page_buffers(vec![(0, 100)]), &two_fields);
    assert!(matches!(
        r,
        Err(ConstructionError::FieldCountMismatch { num_fields: 2, num_encodings: 1 })
    ));
    let r = decoder_from_array_encoding(&enc, &page_buffers(vec![(0, 100)]), &LogicalType::Int32);
    assert!(matches!(r, Err(ConstructionError::NotAStructType)));
}

#[test]
fn test_packed_struct_widths() {
    let enc = ArrayEncoding::PackedStruct(PackedStruct {
        inner: vec![
            ArrayEncoding::Flat(flat(0, BufferType::Page, 32)),
            ArrayEncoding::Flat(flat(0, BufferType::Page, 16)),
        ],
        buffer: Some(Buffer { buffer_index: 1, buffer_type: BufferType::Page }),
    });
    let fields = LogicalType::Struct(vec![
        Field { name: "a".to_string(), data_type: LogicalType::Int32 },
        Field { name: "b".to_string(), data_type: LogicalType::UInt16 },
    ]);
    match decoder_from_array_encoding(&enc, &page_buffers(vec![(0, 100), (100, 60)]), &fields)
        .unwrap()
    {
        PageScheduler::PackedStruct(p) => {
            assert_eq!(p.field_widths, vec![4, 2]);
            assert_eq!(p.buffer_offset, 100);
            assert_eq!(p.inner.len(), 2);
        }
        other => panic!("expected a packed-struct strategy, got {:?}", other),
    }
}

#[test]
fn test_list_node_is_transparent() {
    let enc = ArrayEncoding::List {
        offsets: Box::new(ArrayEncoding::Flat(flat(0, BufferType::Page, 64))),
    };
    match decoder_from_array_encoding(&enc, &page_buffers(vec![(0, 80)]), &LogicalType::Int64)
        .unwrap()
    {
        PageScheduler::Value(v) => assert_eq!(v.bytes_per_value, 8),
        other => panic!("expected the offsets strategy itself, got {:?}", other),
    }
}

#[test]
fn test_packed_struct_rejects_variable_width_field() {
    let enc = ArrayEncoding::PackedStruct(PackedStruct {
        inner: vec![ArrayEncoding::Flat(flat(0, BufferType::Page, 32))],
        buffer: Some(Buffer { buffer_index: 0, buffer_type: BufferType::Page }),
    });
    let fields = LogicalType::Struct(vec![Field {
        name: "s".to_string(),
        data_type: LogicalType::Utf8,
    }]);
    let r = decoder_from_array_encoding(&enc, &page_buffers(vec![(0, 100)]), &fields);
    assert!(matches!(r, Err(ConstructionError::UnsupportedPackedFieldType)));
}
