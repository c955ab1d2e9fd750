//! Tests of the string cleanup, the layout decisions, the I/O accounting and
//! the dataset builder.

use lance_encoding::builder::{
    DatasetBuilder, VersionRef, ASSUMED_INDEX_ENTRY_SIZE, ASSUMED_METADATA_ENTRY_SIZE,
    DEFAULT_INDEX_CACHE_SIZE, DEFAULT_METADATA_CACHE_SIZE,
};
use lance_encoding::iostats::IoStats;
use lance_encoding::layout::{
    add_id_hole, columns_for_file, cycle_assignments, field_structure, get_field_structure,
    layout_repeats, should_swap_first_two, shuffle_accepted, DataFile, Fragment, FragmentCount,
    FragmentRowCount,
};
use lance_encoding::strutil::{plan_matches, trim_whitespace};

#[test]
fn test_trim_whitespace() {
    assert_eq!(trim_whitespace(""), "");
    assert_eq!(trim_whitespace("plain"), "plain");
    assert_eq!(trim_whitespace("  indented line  "), "indented line");
    assert_eq!(trim_whitespace("  a\n\tb\t\nc  "), "a\nb\nc");
    assert_eq!(trim_whitespace("\n\n  \n"), "");
    assert_eq!(trim_whitespace("first\n   \nsecond\n"), "first\nsecond");
    assert_eq!(trim_whitespace("one\r\ntwo\r\n"), "one\ntwo");
    assert_eq!(trim_whitespace("\u{00A0}wide\u{3000}\nx"), "wide\nx");
}

#[test]
fn test_field_structure() {
    let fragment = Fragment {
        id: 0,
        files: vec![
            DataFile { fields: vec![1, 2] },
            DataFile { fields: vec![0] },
        ],
        physical_rows: Some(3),
    };
    assert_eq!(field_structure(&fragment), vec![vec![1, 2], vec![0]]);
    let other = Fragment {
        id: 1,
        files: vec![DataFile { fields: vec![0, 1, 2] }],
        physical_rows: Some(3),
    };
    let structure = get_field_structure(&vec![fragment, other]);
    assert_eq!(structure, vec![vec![vec![1, 2], vec![0]], vec![vec![0, 1, 2]]]);
}

#[test]
fn test_fragment_counts_from() {
    let fc = FragmentCount::from(4u32);
    assert_eq!(fc.0, 4);
    let rc = FragmentRowCount::from(100u32);
    assert_eq!(rc.0, 100);
}

#[test]
fn test_add_id_hole() {
    let ids = vec![0, 1, 2, 3];
    assert_eq!(add_id_hole(&ids, 2), vec![0, 1, 3, 4]);
    assert_eq!(add_id_hole(&ids, 0), vec![1, 2, 3, 4]);
    assert_eq!(add_id_hole(&ids, 4), vec![0, 1, 2, 3]);
}

#[test]
fn test_shuffle_accepted() {
    // an unchanged order over several ids is rejected: drawn again
    assert!(!shuffle_accepted(&vec![1, 2, 3], &vec![1, 2, 3]));
    assert!(shuffle_accepted(&vec![2, 1, 3], &vec![1, 2, 3]));
    // one id cannot change order
    assert!(shuffle_accepted(&vec![5], &vec![5]));
}

#[test]
fn test_cycle_assignments_and_columns() {
    let assignments = cycle_assignments(2, 5);
    assert_eq!(assignments, vec![0, 1, 0, 1, 0]);
    assert_eq!(columns_for_file(&assignments, 0), vec![0, 2, 4]);
    assert_eq!(columns_for_file(&assignments, 1), vec![1, 3]);
}

#[test]
fn test_should_swap_first_two() {
    // files in schema order over more than one file: swap
    assert!(should_swap_first_two(&vec![vec![0, 1], vec![2]], &vec![0, 1, 2]));
    // already scrambled: leave
    assert!(!should_swap_first_two(&vec![vec![2], vec![0, 1]], &vec![0, 1, 2]));
    // one file only: leave
    assert!(!should_swap_first_two(&vec![vec![0, 1, 2]], &vec![0, 1, 2]));
}

#[test]
fn test_layout_repeats() {
    let a = vec![vec![1, 2], vec![0]];
    let b = vec![vec![1, 2], vec![0]];
    let c = vec![vec![0], vec![1, 2]];
    assert!(layout_repeats(&a, &b, 3));
    assert!(!layout_repeats(&a, &c, 3));
    // a single-field schema cannot expect a different layout
    assert!(!layout_repeats(&a, &b, 1));
}

#[test]
fn test_io_stats() {
    let mut stats = IoStats::new();
    stats.record_read("get_range".to_string(), "data/file.bin".to_string(), 64, Some((0, 64)));
    stats.record_read("head".to_string(), "data/file.bin".to_string(), 0, None);
    stats.record_write(100);
    stats.record_hop();
    assert_eq!(stats.read_iops, 2);
    assert_eq!(stats.read_bytes, 64);
    assert_eq!(stats.write_iops, 1);
    assert_eq!(stats.write_bytes, 100);
    assert_eq!(stats.num_hops, 1);
    assert_eq!(stats.requests.len(), 2);
    assert_eq!(stats.requests[0].method, "get_range");
    assert_eq!(stats.requests[0].range, Some((0, 64)));
}

#[test]
fn test_builder_settings() {
    let b = DatasetBuilder::from_uri("memory://table")
        .with_index_cache_size_bytes(1234)
        .with_metadata_cache_size_bytes(5678)
        .with_block_size(4096)
        .with_version(7);
    assert_eq!(b.table_uri, "memory://table");
    assert_eq!(b.index_cache_size_bytes, 1234);
    assert_eq!(b.metadata_cache_size_bytes, 5678);
    assert_eq!(b.block_size, Some(4096));
    assert!(matches!(b.version, Some(VersionRef::Version(7))));

    let b = DatasetBuilder::from_uri("memory://table");
    assert_eq!(b.index_cache_size_bytes, DEFAULT_INDEX_CACHE_SIZE);
    assert_eq!(b.metadata_cache_size_bytes, DEFAULT_METADATA_CACHE_SIZE);

    let b = DatasetBuilder::from_uri("memory://table")
        .with_index_cache_size(3)
        .with_metadata_cache_size(5)
        .with_tag("stable");
    assert_eq!(b.index_cache_size_bytes, 3 * ASSUMED_INDEX_ENTRY_SIZE);
    assert_eq!(b.metadata_cache_size_bytes, 5 * ASSUMED_METADATA_ENTRY_SIZE);
    match b.version {
        Some(VersionRef::Tag(t)) => assert_eq!(t, "stable"),
        other => panic!("expected a tag, got {:?}", other),
    }
}

#[test]
fn test_builder_storage_options() {
    let b = DatasetBuilder::from_uri("s3://bucket/path")
        .with_storage_option("region", "us-east-1")
        .with_storage_option("timeout", "30s")
        .with_storage_option("region", "eu-west-1");
    assert_eq!(b.storage_options.len(), 2);
    assert_eq!(b.storage_options[0].0, "region");
    assert_eq!(b.storage_options[0].1, "eu-west-1");
    assert_eq!(b.storage_options[1].0, "timeout");
    assert_eq!(b.storage_options[1].1, "30s");
}

#[test]
fn test_plan_matches() {
    let plan = "  ProjectionExec: expr=[a]\n    ScanExec: table=t  \n";
    assert!(plan_matches(plan, "ProjectionExec: expr=[a]\nScanExec: table=t"));
    assert!(plan_matches(plan, "ProjectionExec:...ScanExec: table=t"));
    assert!(plan_matches(plan, "ProjectionExec:...table=t"));
    // the first piece must open the plan
    assert!(!plan_matches(plan, "ScanExec:...table=t"));
    // the last piece must close it
    assert!(!plan_matches(plan, "ProjectionExec:...table=s"));
    // nothing may be left over
    assert!(!plan_matches(plan, "ProjectionExec: expr=[a]"));
    // the bare separator splits into two empty pieces; each is found at the
    // very start, so a non-empty plan is left over and does not match
    assert!(!plan_matches(plan, "..."));
    assert!(plan_matches("", "..."));
}
