//! DAS and DDS texts: attribute blocks, descriptor rendering,
//! constraint projection, and the parse/serialize round trip.

use dars::DapError;
use dars::das::{AttrSet, AttrValue, Attribute, Das};
use dars::dds::NcDds;
use dars::ddsparse::parse_dds;
use dars::model::{Container, Dimension, VarType, Variable};

fn dim(name: &str, size: usize) -> Dimension {
    Dimension { name: name.to_string(), size }
}

fn var(name: &str, t: VarType, dims: Vec<Dimension>) -> Variable {
    Variable { name: name.to_string(), vartype: t, dims }
}

/// A 3-D SST grid with same-named 1-D coordinates, plus an uppercase
/// TIME coordinate variable for structure projection.
fn sst_container() -> Container {
    Container {
        name: "coads_climatology.nc".to_string(),
        vars: vec![
            var(
                "SST",
                VarType::Float32,
                vec![dim("time", 12), dim("lat", 90), dim("lon", 180)],
            ),
            var("time", VarType::Float32, vec![dim("time", 12)]),
            var("lat", VarType::Float32, vec![dim("lat", 90)]),
            var("lon", VarType::Float32, vec![dim("lon", 180)]),
            var("TIME", VarType::Float32, vec![dim("time", 12)]),
        ],
    }
}

#[test]
fn das_of_simple_file() {
    let global = vec![Attribute {
        name: "history".to_string(),
        value: AttrValue::Str("created".to_string()),
    }];
    let sets = vec![AttrSet {
        name: "SST".to_string(),
        attrs: vec![Attribute {
            name: "units".to_string(),
            value: AttrValue::Str("degC".to_string()),
        }],
    }];
    let das = Das::build(&global, &sets);
    let expected = "Attributes {\n    NC_GLOBAL {\n        String history \"created\";\n    }\n    SST {\n        String units \"degC\";\n    }\n}";
    assert_eq!(das.as_str(), expected);
}

#[test]
fn das_without_globals_and_empty_block() {
    let global: Vec<Attribute> = vec![];
    let sets = vec![AttrSet { name: "V".to_string(), attrs: vec![] }];
    let das = Das::build(&global, &sets);
    assert_eq!(das.as_str(), "Attributes {\n    V {\n    }\n}");
}

#[test]
fn das_numeric_values() {
    let global: Vec<Attribute> = vec![];
    let sets = vec![AttrSet {
        name: "V".to_string(),
        attrs: vec![
            Attribute { name: "a".to_string(), value: AttrValue::Int(-42) },
            Attribute { name: "b".to_string(), value: AttrValue::Short(7) },
            Attribute { name: "c".to_string(), value: AttrValue::Uchar(255) },
            Attribute { name: "d".to_string(), value: AttrValue::Ints(vec![1, -2, 3]) },
            Attribute { name: "e".to_string(), value: AttrValue::Float("+1.5E2".to_string()) },
            Attribute {
                name: "f".to_string(),
                value: AttrValue::Doubles(vec!["+1E0".to_string(), "-2.5E-1".to_string()]),
            },
        ],
    }];
    let das = Das::build(&global, &sets);
    let expected = "Attributes {\n    V {\n        Int32 a -42;\n        Int16 b 7;\n        Byte c 255;\n        Int32 d 1, -2, 3;\n        Float32 e +1.5E2;\n        Float64 f +1E0, -2.5E-1;\n    }\n}";
    assert_eq!(das.as_str(), expected);
}

#[test]
fn das_escapes_and_drops() {
    let global: Vec<Attribute> = vec![];
    let sets = vec![AttrSet {
        name: "V".to_string(),
        attrs: vec![
            Attribute {
                name: "s".to_string(),
                value: AttrValue::Str("a\"b\\c\nd".to_string()),
            },
            Attribute {
                name: "hidden".to_string(),
                value: AttrValue::Ignored("reason".to_string()),
            },
            Attribute {
                name: "odd".to_string(),
                value: AttrValue::Unimplemented("kind".to_string()),
            },
        ],
    }];
    let das = Das::build(&global, &sets);
    let expected = "Attributes {\n    V {\n        String s \"a\\\"b\\\\c\\nd\";\n    }\n}";
    assert_eq!(das.as_str(), expected);
}

const SST_DDS: &str = "Dataset {\n    Grid {\n     ARRAY:\n        Float32 SST[time = 12][lat = 90][lon = 180];\n     MAPS:\n        Float32 time[time = 12];\n        Float32 lat[lat = 90];\n        Float32 lon[lon = 180];\n    } SST;\n    Float32 time[time = 12];\n    Float32 lat[lat = 90];\n    Float32 lon[lon = 180];\n    Float32 TIME[time = 12];\n} coads_climatology.nc;";

#[test]
fn unconstrained_dds_emits_grid() {
    let dds = NcDds::build(sst_container());
    let text = dds.dds(None).unwrap();
    assert_eq!(text, SST_DDS);
}

#[test]
fn constrained_dds_counts() {
    let dds = NcDds::build(sst_container());
    let text = dds.dds(Some("SST[0:0][0:9][0:9]")).unwrap();
    let expected = "Dataset {\n    Grid {\n     ARRAY:\n        Float32 SST[time = 1][lat = 10][lon = 10];\n     MAPS:\n        Float32 time[time = 1];\n        Float32 lat[lat = 10];\n        Float32 lon[lon = 10];\n    } SST;\n} coads_climatology.nc;";
    assert_eq!(text, expected);
}

#[test]
fn structure_projection() {
    let dds = NcDds::build(sst_container());
    let text = dds.dds(Some("SST.TIME")).unwrap();
    let expected =
        "Dataset {\n    Structure {\n        Float32 TIME[time = 12];\n    } SST;\n} coads_climatology.nc;";
    assert_eq!(text, expected);
}

#[test]
fn omitted_trailing_hyperslabs_default_to_dim_size() {
    let dds = NcDds::build(sst_container());
    let text = dds.dds(Some("SST[0:5]")).unwrap();
    assert!(text.contains("[time = 6][lat = 90][lon = 180]"));
}

#[test]
fn multi_projection_keeps_constraint_order() {
    let dds = NcDds::build(sst_container());
    let text = dds.dds(Some("lat[0:1],time")).unwrap();
    let expected =
        "Dataset {\n    Float32 lat[lat = 2];\n    Float32 time[time = 12];\n} coads_climatology.nc;";
    assert_eq!(text, expected);
}

#[test]
fn dds_round_trip() {
    let parsed = parse_dds(SST_DDS).expect("the rendered DDS parses");
    let (name, nodes) = parsed;
    assert_eq!(name, "coads_climatology.nc");
    assert_eq!(nodes.len(), 5);
    let again = dars::dds::render_dataset(&name, &nodes);
    assert_eq!(again, SST_DDS);
}

#[test]
fn dds_round_trip_structure() {
    let dds = NcDds::build(sst_container());
    let text = dds.dds(Some("SST.TIME")).unwrap();
    let (name, nodes) = parse_dds(&text).expect("structure text parses");
    assert_eq!(dars::dds::render_dataset(&name, &nodes), text);
}

#[test]
fn dds_parse_rejects_garbage() {
    assert!(parse_dds("not a dds").is_none());
    assert!(parse_dds("Dataset {\n    Float32 x;\n} a;extra").is_none());
}

#[test]
fn dds_unknown_variable() {
    let dds = NcDds::build(sst_container());
    assert_eq!(dds.dds(Some("NOPE")), Err(DapError::UnknownVariable));
    assert_eq!(dds.dds(Some("SST.nope")), Err(DapError::UnknownVariable));
}

#[test]
fn dds_invalid_ranges() {
    let dds = NcDds::build(sst_container());
    assert_eq!(dds.dds(Some("SST[5:2]")), Err(DapError::InvalidConstraint));
    assert_eq!(dds.dds(Some("SST[0:99]")), Err(DapError::InvalidConstraint));
    assert_eq!(dds.dds(Some("")), Err(DapError::InvalidConstraint));
}

#[test]
fn dds_scalar_with_hyperslab_is_invalid() {
    let c = Container {
        name: "s.nc".to_string(),
        vars: vec![var("S", VarType::Int32, vec![])],
    };
    let dds = NcDds::build(c);
    assert_eq!(dds.dds(Some("S[0:1]")), Err(DapError::InvalidConstraint));
    assert_eq!(dds.dds(Some("S")).unwrap(), "Dataset {\n    Int32 S;\n} s.nc;");
}

#[test]
fn grid_fallback_without_coordinates() {
    let c = Container {
        name: "f.nc".to_string(),
        vars: vec![var("V", VarType::Int16, vec![dim("x", 2), dim("y", 3)])],
    };
    let dds = NcDds::build(c);
    assert_eq!(
        dds.dds(None).unwrap(),
        "Dataset {\n    Int16 V[x = 2][y = 3];\n} f.nc;"
    );
}
