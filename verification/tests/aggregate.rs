//! Join-existing aggregation: descriptor parsing, member ordering,
//! the coordinate cache, and routed reads across member boundaries.

use dars::DapError;
use dars::agg::{CoordinateVariable, Member, agg_read, member_matches, rank_key, sort_members};
use dars::model::{Container, Dimension, VarType, Variable};
use dars::ncml::{
    AggregationType, FileEvent, NcmlEntry, apply_event, members_agree, parse_descriptor,
    resolve_location, total_len, validate_members, with_dim_size,
};

fn member(path: &str, n: usize, rank: u64) -> Member {
    Member { path: path.to_string(), n, rank }
}

#[test]
fn descriptor_with_locations() {
    let xml = "<?xml version=\"1.0\" encoding=\"UTF-8\"?>\n<netcdf xmlns=\"http://www.unidata.ucar.edu/namespaces/netcdf/ncml-2.2\">\n  <aggregation dimName=\"time\" type=\"joinExisting\">\n    <netcdf location=\"jan.nc\"/>\n    <netcdf location=\"feb.nc\"/>\n  </aggregation>\n</netcdf>";
    let d = parse_descriptor(xml).unwrap();
    assert_eq!(d.agg_type, AggregationType::JoinExisting);
    assert_eq!(d.dim_name, "time");
    assert_eq!(d.entries.len(), 2);
    match &d.entries[0] {
        NcmlEntry::Location { location } => assert_eq!(location, "jan.nc"),
        _ => panic!("expected a plain location"),
    }
}

#[test]
fn descriptor_with_scan() {
    let xml = "<netcdf>\n  <aggregation dimName=\"D\" type=\"joinExisting\">\n    <scan location=\"data/\" suffix=\".nc\" ignore=\"bad\"/>\n  </aggregation>\n</netcdf>";
    let d = parse_descriptor(xml).unwrap();
    match &d.entries[0] {
        NcmlEntry::Scan { location, suffix, ignore } => {
            assert_eq!(location, "data/");
            assert_eq!(suffix, ".nc");
            assert_eq!(ignore.as_deref(), Some("bad"));
        },
        _ => panic!("expected a scan entry"),
    }
}

#[test]
fn descriptor_refusals() {
    assert_eq!(parse_descriptor("not xml"), Err(DapError::AggregationMisconfigured));
    let wrong_type = "<netcdf><aggregation dimName=\"D\" type=\"joinNew\"/></netcdf>";
    assert_eq!(parse_descriptor(wrong_type), Err(DapError::AggregationMisconfigured));
    let no_dim = "<netcdf><aggregation type=\"joinExisting\"/></netcdf>";
    assert_eq!(parse_descriptor(no_dim), Err(DapError::AggregationMisconfigured));
    let no_suffix = "<netcdf><aggregation dimName=\"D\" type=\"joinExisting\"><scan location=\"x\"/></aggregation></netcdf>";
    assert_eq!(parse_descriptor(no_suffix), Err(DapError::AggregationMisconfigured));
}

#[test]
fn rank_keys_order_like_doubles() {
    let ks: Vec<u64> = [-100.0f64, -1.0, -0.25, 0.0, 0.5, 1.5, 1e300]
        .iter()
        .map(|v| rank_key(v.to_bits()))
        .collect();
    for w in ks.windows(2) {
        assert!(w[0] < w[1]);
    }
}

#[test]
fn members_sort_by_rank() {
    let sorted = sort_members(vec![
        member("c.nc", 3, rank_key(3.0f64.to_bits())),
        member("a.nc", 1, rank_key((-1.0f64).to_bits())),
        member("b.nc", 2, rank_key(2.0f64.to_bits())),
    ]);
    let paths: Vec<&str> = sorted.iter().map(|m| m.path.as_str()).collect();
    assert_eq!(paths, ["a.nc", "b.nc", "c.nc"]);
}

#[test]
fn members_with_equal_ranks_keep_their_order() {
    // Overlapping coordinate ranges are concatenated in the order
    // given, not reconciled.
    let sorted = sort_members(vec![
        member("first.nc", 1, 5),
        member("second.nc", 2, 5),
        member("early.nc", 3, 1),
    ]);
    let paths: Vec<&str> = sorted.iter().map(|m| m.path.as_str()).collect();
    assert_eq!(paths, ["early.nc", "first.nc", "second.nc"]);
}

#[test]
fn scan_filter() {
    assert!(member_matches("feb.nc", "/d/feb.nc", ".nc", None));
    assert!(!member_matches(".hidden.nc", "/d/.hidden.nc", ".nc", None));
    assert!(!member_matches("feb.txt", "/d/feb.txt", ".nc", None));
    assert!(!member_matches("feb_bad.nc", "/d/feb_bad.nc", ".nc", Some("bad")));
}

#[test]
fn location_resolution() {
    assert_eq!(resolve_location("/data/ncml", "jan.nc"), "/data/ncml/jan.nc");
    assert_eq!(resolve_location("/data/ncml", "/abs/jan.nc"), "/abs/jan.nc");
    assert_eq!(resolve_location("", "jan.nc"), "jan.nc");
}

#[test]
fn coordinate_cache_len_is_sum_times_width() {
    let bufs = vec![vec![0u8; 31 * 4], vec![0u8; 28 * 4]];
    let ns = vec![31usize, 28];
    let c = CoordinateVariable::from(&bufs, &ns, 4).unwrap();
    assert_eq!(c.bytes.len(), 4 * (31 + 28));
}

#[test]
fn coordinate_cache_slices_by_element() {
    let bufs = vec![vec![1u8, 2, 3, 4], vec![5u8, 6, 7, 8]];
    let ns = vec![2usize, 2];
    let c = CoordinateVariable::from(&bufs, &ns, 2).unwrap();
    assert_eq!(c.stream(&vec![1], &vec![2]).unwrap(), vec![3, 4, 5, 6]);
    assert_eq!(c.stream(&vec![0], &vec![5]), Err(DapError::SlabOutOfRange));
    assert_eq!(c.stream(&vec![0, 0], &vec![1, 1]), Err(DapError::InvalidConstraint));
}

#[test]
fn aggregation_split_across_members() {
    // Outer lengths 31 and 28, one inner dimension of 2, one byte wide.
    let m0: Vec<u8> = (0u8..62).collect();
    let m1: Vec<u8> = (100u8..=155).collect();
    let data = vec![m0.clone(), m1.clone()];
    let ns = vec![31usize, 28];
    let inner = vec![2usize];
    // Rows 30..=32 straddle the boundary: the last row of member 0,
    // then the first two rows of member 1.
    let r = agg_read(&data, &ns, &inner, 1, &vec![30, 0], &vec![3, 2]);
    assert_eq!(r, vec![60, 61, 100, 101, 102, 103]);
}

#[test]
fn aggregation_single_member_and_full_reads() {
    let m0: Vec<u8> = (0u8..6).collect();
    let m1: Vec<u8> = (10u8..16).collect();
    let data = vec![m0.clone(), m1.clone()];
    let ns = vec![3usize, 3];
    let inner = vec![2usize];
    // Entirely inside member 0.
    assert_eq!(agg_read(&data, &ns, &inner, 1, &vec![1, 0], &vec![2, 2]), vec![2, 3, 4, 5]);
    // The whole virtual array.
    let whole = agg_read(&data, &ns, &inner, 1, &vec![0, 0], &vec![6, 2]);
    let mut expect = m0;
    expect.extend_from_slice(&m1);
    assert_eq!(whole, expect);
}

#[test]
fn member_event_add_and_remove() {
    let members = vec![member("a.nc", 1, 10), member("b.nc", 2, 20)];
    let (after_dup, changed) =
        apply_event(members.clone(), FileEvent::Created(member("a.nc", 9, 5)));
    assert!(!changed);
    assert_eq!(after_dup.len(), 2);
    let (after_add, changed) =
        apply_event(members.clone(), FileEvent::Created(member("c.nc", 3, 15)));
    assert!(changed);
    let paths: Vec<&str> = after_add.iter().map(|m| m.path.as_str()).collect();
    assert_eq!(paths, ["a.nc", "c.nc", "b.nc"]);
    let (after_rm, changed) = apply_event(after_add, FileEvent::Removed("c.nc".to_string()));
    assert!(changed);
    assert_eq!(after_rm.len(), 2);
    let (same, changed) = apply_event(members, FileEvent::Removed("zz.nc".to_string()));
    assert!(!changed);
    assert_eq!(same.len(), 2);
}

#[test]
fn total_length_sums_members() {
    let members = vec![member("a.nc", 31, 1), member("b.nc", 28, 2)];
    assert_eq!(total_len(&members).unwrap(), 59);
}

fn small_container(time: usize) -> Container {
    Container {
        name: "m.nc".to_string(),
        vars: vec![
            Variable {
                name: "V".to_string(),
                vartype: VarType::Int16,
                dims: vec![
                    Dimension { name: "time".to_string(), size: time },
                    Dimension { name: "x".to_string(), size: 4 },
                ],
            },
        ],
    }
}

#[test]
fn member_agreement_ignores_join_dimension() {
    let a = small_container(31);
    let b = small_container(28);
    assert!(members_agree(&a, &b, "time"));
    assert!(!members_agree(&a, &b, "x"));
    assert!(validate_members(&vec![small_container(31), small_container(28)], "time").is_ok());
    assert_eq!(
        validate_members(&vec![small_container(31), small_container(28)], "x"),
        Err(DapError::MemberMismatch)
    );
}

#[test]
fn aggregation_split_with_prefix() {
    // Outer lengths 31 and 28; requesting rows 30..=32 carries the
    // global count (3 rows of 2) in the prefix, once, up front.
    let m0: Vec<u8> = (0u8..62).collect();
    let m1: Vec<u8> = (100u8..=155).collect();
    let data = vec![m0, m1];
    let chunks = dars::agg::joined_variable_stream(
        &data,
        &vec![31, 28],
        &vec![2],
        1,
        &vec![30, 0],
        &vec![3, 2],
    )
    .unwrap();
    assert_eq!(chunks.len(), 2);
    assert_eq!(chunks[0], vec![0, 0, 0, 6, 0, 0, 0, 6]);
    assert_eq!(chunks[1], vec![60, 61, 100, 101, 102, 103]);
}

#[test]
fn read_path_dispatch() {
    let global: Vec<dars::das::Attribute> = vec![];
    let sets: Vec<dars::das::AttrSet> = vec![];
    let ds = dars::ncml::NcmlDataset {
        path: "agg.ncml".to_string(),
        dim_name: "time".to_string(),
        members: vec![member("a.nc", 31, 1), member("b.nc", 28, 2)],
        dim_n: 59,
        modified: 7,
        das: dars::das::Das::build(&global, &sets),
        dds: dars::dds::NcDds::build(with_dim_size(&small_container(31), "time", 59)),
        coordinates: CoordinateVariable { bytes: vec![0u8; 59 * 4], dsz: 4 },
    };
    let time_var = Variable {
        name: "time".to_string(),
        vartype: VarType::Float32,
        dims: vec![Dimension { name: "time".to_string(), size: 59 }],
    };
    assert_eq!(ds.route(&time_var), dars::ncml::ReadPath::Coordinate);
    let lat = Variable {
        name: "lat".to_string(),
        vartype: VarType::Float32,
        dims: vec![Dimension { name: "lat".to_string(), size: 4 }],
    };
    assert_eq!(ds.route(&lat), dars::ncml::ReadPath::FirstMember);
    let joined = Variable {
        name: "V".to_string(),
        vartype: VarType::Int16,
        dims: vec![
            Dimension { name: "time".to_string(), size: 59 },
            Dimension { name: "x".to_string(), size: 4 },
        ],
    };
    assert_eq!(ds.route(&joined), dars::ncml::ReadPath::Joined);
    assert_eq!(ds.name(), "agg.ncml");
    assert!(ds.check_fresh(7).is_ok());
    assert_eq!(ds.check_fresh(8), Err(DapError::StaleDataset));
    assert!(ds.dds_text(None).unwrap().contains("[time = 59]"));
}

/// A two-member aggregate over `V(time, x)` with a cached `time`
/// coordinate, ready for data requests.
fn small_aggregate() -> dars::ncml::NcmlDataset {
    let global: Vec<dars::das::Attribute> = vec![];
    let sets: Vec<dars::das::AttrSet> = vec![];
    let agg_container = Container {
        name: "agg.ncml".to_string(),
        vars: vec![
            Variable {
                name: "V".to_string(),
                vartype: VarType::Byte,
                dims: vec![
                    Dimension { name: "time".to_string(), size: 5 },
                    Dimension { name: "x".to_string(), size: 2 },
                ],
            },
            Variable {
                name: "time".to_string(),
                vartype: VarType::Byte,
                dims: vec![Dimension { name: "time".to_string(), size: 5 }],
            },
            Variable {
                name: "lat".to_string(),
                vartype: VarType::Byte,
                dims: vec![Dimension { name: "lat".to_string(), size: 2 }],
            },
        ],
    };
    dars::ncml::NcmlDataset {
        path: "agg.ncml".to_string(),
        dim_name: "time".to_string(),
        members: vec![member("a.nc", 3, 1), member("b.nc", 2, 2)],
        dim_n: 5,
        modified: 7,
        das: dars::das::Das::build(&global, &sets),
        dds: dars::dds::NcDds::build(agg_container),
        coordinates: CoordinateVariable { bytes: vec![10, 11, 12, 13, 14], dsz: 1 },
    }
}

/// Per-variable, per-member payloads for `small_aggregate`.
fn small_aggregate_data() -> Vec<Vec<Vec<u8>>> {
    vec![
        // V: member a holds rows 0..3, member b rows 3..5, inner x = 2.
        vec![(0u8..6).collect(), (100u8..104).collect()],
        // time: served from the cache, no member buffers needed.
        vec![],
        // lat: not joined, served from the first member.
        vec![vec![20, 21]],
    ]
}

#[test]
fn aggregate_dods_routes_across_members() {
    let ds = small_aggregate();
    let data = small_aggregate_data();
    // Rows 2..=3 of V straddle the member boundary.
    let chunks = ds.dods(&data, "V[2:3][0:1]", 7).unwrap();
    let dds_text = ds.dds_text(Some("V[2:3][0:1]")).unwrap();
    assert_eq!(chunks[0], dds_text.as_bytes());
    assert_eq!(chunks[1], b"\nData:\r\n");
    assert_eq!(chunks[2], vec![0, 0, 0, 4, 0, 0, 0, 4]);
    let mut body = Vec::new();
    for c in &chunks[3..] {
        body.extend_from_slice(c);
    }
    assert_eq!(body, vec![4, 5, 100, 101]);
}

#[test]
fn aggregate_dods_serves_coordinate_from_cache() {
    let ds = small_aggregate();
    let data = small_aggregate_data();
    let chunks = ds.dods(&data, "time[1:3]", 7).unwrap();
    assert_eq!(chunks[2], vec![0, 0, 0, 3, 0, 0, 0, 3]);
    let mut body = Vec::new();
    for c in &chunks[3..] {
        body.extend_from_slice(c);
    }
    assert_eq!(body, vec![11, 12, 13]);
}

#[test]
fn aggregate_dods_passes_through_first_member() {
    let ds = small_aggregate();
    let data = small_aggregate_data();
    let chunks = ds.dods(&data, "lat", 7).unwrap();
    assert_eq!(chunks[2], vec![0, 0, 0, 2, 0, 0, 0, 2]);
    let mut body = Vec::new();
    for c in &chunks[3..] {
        body.extend_from_slice(c);
    }
    assert_eq!(body, vec![20, 21]);
}

#[test]
fn aggregate_dods_errors() {
    let ds = small_aggregate();
    let data = small_aggregate_data();
    assert_eq!(ds.dods(&data, "V", 8), Err(DapError::StaleDataset));
    assert_eq!(ds.dods(&data, "V[0:2:4]", 7), Err(DapError::StrideUnsupported));
    assert_eq!(ds.dods(&data, "nope", 7), Err(DapError::UnknownVariable));
}

#[test]
fn aggregate_container_substitutes_total() {
    let c = with_dim_size(&small_container(31), "time", 59);
    assert_eq!(c.vars[0].dims[0].size, 59);
    assert_eq!(c.vars[0].dims[1].size, 4);
}
