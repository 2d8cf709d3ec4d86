//! The request path: constraint parsing, stride rejection, staleness,
//! and the DODS body layout.

use dars::DapError;
use dars::das::{AttrSet, Attribute, Das};
use dars::dds::{NcDds, ranges_of, split_commas};
use dars::dataset::NcDataset;
use dars::hyperslab::{parse_hyperslab, slab_range};
use dars::model::{Container, Dimension, VarType, Variable};

fn tiny_dataset() -> (NcDataset, Vec<Vec<u8>>) {
    let c = Container {
        name: "t.nc".to_string(),
        vars: vec![
            Variable {
                name: "SST".to_string(),
                vartype: VarType::Byte,
                dims: vec![
                    Dimension { name: "x".to_string(), size: 2 },
                    Dimension { name: "y".to_string(), size: 3 },
                ],
            },
        ],
    };
    let global: Vec<Attribute> = vec![];
    let sets: Vec<AttrSet> = vec![];
    let ds = NcDataset {
        filename: "t.nc".to_string(),
        mtime: 1000,
        das: Das::build(&global, &sets),
        dds: NcDds::build(c),
    };
    let data = vec![(0u8..6).collect()];
    (ds, data)
}

#[test]
fn hyperslab_parsing() {
    let slabs = parse_hyperslab("[0:9][3][1:2:5]").unwrap();
    assert_eq!(slabs, vec![vec![0, 9], vec![3], vec![1, 2, 5]]);
    assert!(parse_hyperslab("[0:9").is_err());
    assert!(parse_hyperslab("0:9]").is_err());
    assert!(parse_hyperslab("[]").is_err());
    assert!(parse_hyperslab("[1:2:3:4]").is_err());
    assert!(parse_hyperslab("[a]").is_err());
    assert_eq!(parse_hyperslab("").unwrap(), Vec::<Vec<usize>>::new());
}

#[test]
fn hyperslab_accepts_every_representable_number() {
    // The largest machine value parses; one more digit cannot be held.
    let max = usize::MAX.to_string();
    let slabs = parse_hyperslab(&format!("[{}]", max)).unwrap();
    assert_eq!(slabs, vec![vec![usize::MAX]]);
    assert!(parse_hyperslab(&format!("[{}0]", max)).is_err());
}

#[test]
fn slab_ranges() {
    assert_eq!(slab_range(&vec![7]).unwrap(), (7, 1));
    assert_eq!(slab_range(&vec![2, 9]).unwrap(), (2, 8));
    assert_eq!(slab_range(&vec![1, 2, 5]), Err(DapError::StrideUnsupported));
    assert_eq!(slab_range(&vec![9, 2]), Err(DapError::InvalidConstraint));
    assert_eq!(slab_range(&vec![0, usize::MAX]), Err(DapError::Overflow));
}

#[test]
fn stride_rejection() {
    // Anywhere a stride appears, the request fails with the stride
    // error before any data handling.
    let slabs = parse_hyperslab("[0:2:10]").unwrap();
    assert_eq!(ranges_of(&slabs), Err(DapError::StrideUnsupported));
    let (ds, data) = tiny_dataset();
    assert_eq!(ds.dds_text(Some("SST[0:2:10]")), Err(DapError::StrideUnsupported));
    assert_eq!(
        ds.dods(&data, Some("SST[0:2:10]"), 1000),
        Err(DapError::StrideUnsupported)
    );
}

#[test]
fn staleness_fails_before_any_byte() {
    let (ds, data) = tiny_dataset();
    assert_eq!(ds.dods(&data, None, 999), Err(DapError::StaleDataset));
    assert!(ds.dods(&data, None, 1000).is_ok());
}

#[test]
fn dods_body_layout() {
    let (ds, data) = tiny_dataset();
    let chunks = ds.dods(&data, Some("SST[0:1][0:1]"), 1000).unwrap();
    let dds_text = ds.dds_text(Some("SST[0:1][0:1]")).unwrap();
    assert_eq!(chunks[0], dds_text.as_bytes());
    assert_eq!(chunks[1], b"\nData:\r\n");
    // Then the length prefix (4 elements, twice) and the packed slab.
    assert_eq!(chunks[2], vec![0, 0, 0, 4, 0, 0, 0, 4]);
    let mut body = Vec::new();
    for c in &chunks[3..] {
        body.extend_from_slice(c);
    }
    assert_eq!(body, vec![0, 1, 3, 4]);
}

#[test]
fn dods_unconstrained_streams_all() {
    let (ds, data) = tiny_dataset();
    let chunks = ds.dods(&data, None, 1000).unwrap();
    assert_eq!(chunks[1], b"\nData:\r\n");
    assert_eq!(chunks[2], vec![0, 0, 0, 6, 0, 0, 0, 6]);
    let mut body = Vec::new();
    for c in &chunks[3..] {
        body.extend_from_slice(c);
    }
    assert_eq!(body, (0u8..6).collect::<Vec<u8>>());
}

#[test]
fn dods_unknown_variable() {
    let (ds, data) = tiny_dataset();
    assert_eq!(ds.dods(&data, Some("NOPE"), 1000), Err(DapError::UnknownVariable));
}

#[test]
fn query_splitting() {
    let parts = split_commas("a[0:1],b.c,d");
    assert_eq!(parts, ["a[0:1]", "b.c", "d"]);
    assert_eq!(split_commas(""), [""]);
    assert_eq!(split_commas("x,"), ["x", ""]);
}

#[test]
fn count_slab_element_counts() {
    assert_eq!(NcDds::count_slab(&vec![5]), 1);
    assert_eq!(NcDds::count_slab(&vec![2, 9]), 8);
    assert_eq!(NcDds::count_slab(&vec![0, 0]), 1);
}

#[test]
fn error_messages_name_each_kind() {
    let kinds = [
        DapError::InvalidConstraint,
        DapError::UnknownVariable,
        DapError::UnknownAttribute,
        DapError::SlabOutOfRange,
        DapError::StrideUnsupported,
        DapError::Overflow,
        DapError::StaleDataset,
        DapError::CorruptIndex,
        DapError::IoError,
        DapError::MemberMismatch,
        DapError::AggregationMisconfigured,
        DapError::InternalDecodeError,
    ];
    for k in kinds {
        assert!(!k.message().is_empty());
    }
}

#[test]
fn hdf5_dataset_freshness() {
    let global: Vec<Attribute> = vec![];
    let sets: Vec<AttrSet> = vec![];
    let ds = dars::dataset::Hdf5Dataset {
        path: "/d/x.nc4".to_string(),
        idxkey: "/d/x.nc4".to_string(),
        modified: 42,
        das: Das::build(&global, &sets),
        dds: NcDds::build(Container { name: "x.nc4".to_string(), vars: vec![] }),
    };
    assert!(ds.check_fresh(42).is_ok());
    assert_eq!(ds.check_fresh(43), Err(DapError::StaleDataset));
    assert_eq!(ds.das(), "Attributes {\n}");
}

#[test]
fn hdf5_dataset_dods_matches_container_body() {
    let global: Vec<Attribute> = vec![];
    let sets: Vec<AttrSet> = vec![];
    let c = Container {
        name: "x.nc4".to_string(),
        vars: vec![
            Variable {
                name: "T".to_string(),
                vartype: VarType::Byte,
                dims: vec![Dimension { name: "t".to_string(), size: 4 }],
            },
        ],
    };
    let ds = dars::dataset::Hdf5Dataset {
        path: "/d/x.nc4".to_string(),
        idxkey: "/d/x.nc4".to_string(),
        modified: 5,
        das: Das::build(&global, &sets),
        dds: NcDds::build(c),
    };
    let data = vec![vec![7u8, 8, 9, 10]];
    assert_eq!(ds.dods(&data, None, 4), Err(DapError::StaleDataset));
    let chunks = ds.dods(&data, Some("T[1:2]"), 5).unwrap();
    assert_eq!(chunks[1], b"\nData:\r\n");
    assert_eq!(chunks[2], vec![0, 0, 0, 2, 0, 0, 0, 2]);
    let mut body = Vec::new();
    for c in &chunks[3..] {
        body.extend_from_slice(c);
    }
    assert_eq!(body, vec![8, 9]);
}
