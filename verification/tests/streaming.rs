//! Slab reads, the chunked streamer, and XDR packing.

use dars::dataset::var_xdr;
use dars::xdr::{ElemBytes, XdrPack};
use dars::model::{Dimension, VarType, Variable};
use dars::slab::{read_slab, stream_slab};
use dars::xdr::{encode_value, swap_bytes, xdr_length};

fn concat(chunks: &[Vec<u8>]) -> Vec<u8> {
    let mut out = Vec::new();
    for c in chunks {
        out.extend_from_slice(c);
    }
    out
}

/// A little-endian byte image of a f32 array, as a container holds it.
fn f32_bytes(vals: &[f32]) -> Vec<u8> {
    let mut out = Vec::new();
    for v in vals {
        out.extend_from_slice(&v.to_le_bytes());
    }
    out
}

#[test]
fn read_all() {
    let data: Vec<u8> = (0u8..24).collect();
    let dims = vec![2usize, 3, 4];
    let start = vec![0usize, 0, 0];
    let count = vec![2usize, 3, 4];
    let r = read_slab(&data, 1, &dims, &start, &count);
    assert_eq!(r, data);
}

#[test]
fn read_start_zero() {
    let data: Vec<u8> = (0u8..24).collect();
    let dims = vec![2usize, 3, 4];
    let r = read_slab(&data, 1, &dims, &vec![0, 0, 0], &vec![1, 2, 2]);
    assert_eq!(r, vec![0, 1, 4, 5]);
}

#[test]
fn read_start_offset() {
    let data: Vec<u8> = (0u8..24).collect();
    let dims = vec![2usize, 3, 4];
    // Row-major: element (i, j, k) sits at i*12 + j*4 + k.
    let r = read_slab(&data, 1, &dims, &vec![1, 1, 2], &vec![1, 2, 2]);
    assert_eq!(r, vec![18, 19, 22, 23]);
}

#[test]
fn read_respects_element_width() {
    let data: Vec<u8> = (0u8..12).collect();
    let dims = vec![3usize];
    let r = read_slab(&data, 4, &dims, &vec![1], &vec![2]);
    assert_eq!(r, vec![4, 5, 6, 7, 8, 9, 10, 11]);
}

#[test]
fn chunking_independence() {
    let data: Vec<u8> = (0u8..120).collect();
    let dims = vec![5usize, 4, 6];
    let start = vec![1usize, 1, 2];
    let count = vec![3usize, 2, 3];
    let whole = read_slab(&data, 1, &dims, &start, &count);
    for budget in [1usize, 2, 3, 5, 7, 100] {
        let chunks = stream_slab(&data, 1, &dims, &start, &count, budget);
        assert_eq!(concat(&chunks), whole, "budget {}", budget);
    }
}

#[test]
fn chunk_budget_shapes_yields() {
    let data: Vec<u8> = (0u8..24).collect();
    let dims = vec![2usize, 3, 4];
    // A one-element budget yields row by row; a huge budget yields once.
    let fine = stream_slab(&data, 1, &dims, &vec![0, 0, 0], &vec![2, 3, 4], 1);
    assert!(fine.len() > 1);
    let coarse = stream_slab(&data, 1, &dims, &vec![0, 0, 0], &vec![2, 3, 4], 1000);
    assert_eq!(coarse.len(), 1);
    assert_eq!(concat(&coarse), data);
}

#[test]
fn byte_order_roundtrip() {
    // Reading everything, packing to XDR and unpacking again gives the
    // source bytes back, row-major.
    let vals = [1.0f32, 2.5, -3.0, 4.0, 0.5, -0.25];
    let data = f32_bytes(&vals);
    let dims = vec![2usize, 3];
    let whole = read_slab(&data, 4, &dims, &vec![0, 0], &vec![2, 3]);
    assert_eq!(whole, data);
    let packed = swap_bytes(&whole, 4);
    let unpacked = swap_bytes(&packed, 4);
    assert_eq!(unpacked, data);
    // And the packed image really is big-endian.
    let mut be = Vec::new();
    for v in &vals {
        be.extend_from_slice(&v.to_be_bytes());
    }
    assert_eq!(packed, be);
}

#[test]
fn xdr_length_is_count_twice_big_endian() {
    assert_eq!(xdr_length(12), vec![0, 0, 0, 12, 0, 0, 0, 12]);
    assert_eq!(xdr_length(0x01020304), vec![1, 2, 3, 4, 1, 2, 3, 4]);
}

#[test]
fn var_stream_has_prefix_then_packed_data() {
    // Int16 V[x = 3][y = 4], values 0..12 little-endian.
    let v = Variable {
        name: "V".to_string(),
        vartype: VarType::Int16,
        dims: vec![
            Dimension { name: "x".to_string(), size: 3 },
            Dimension { name: "y".to_string(), size: 4 },
        ],
    };
    let mut data = Vec::new();
    for i in 0i16..12 {
        data.extend_from_slice(&i.to_le_bytes());
    }
    let chunks = var_xdr(&data, &v, &vec![], 1024).unwrap();
    assert_eq!(chunks[0], xdr_length(12));
    let mut be = Vec::new();
    for i in 0i16..12 {
        be.extend_from_slice(&i.to_be_bytes());
    }
    assert_eq!(concat(&chunks[1..]), be);
}

#[test]
fn var_stream_constrained_prefix_counts() {
    let v = Variable {
        name: "V".to_string(),
        vartype: VarType::Byte,
        dims: vec![
            Dimension { name: "x".to_string(), size: 4 },
            Dimension { name: "y".to_string(), size: 5 },
        ],
    };
    let data: Vec<u8> = (0u8..20).collect();
    // V[1:2][0:2]: 2 x 3 elements, prefix 6 twice.
    let chunks = var_xdr(&data, &v, &vec![(1, 2), (0, 3)], 1024).unwrap();
    assert_eq!(chunks[0], vec![0, 0, 0, 6, 0, 0, 0, 6]);
    assert_eq!(concat(&chunks[1..]), vec![5, 6, 7, 10, 11, 12]);
}

#[test]
fn scalar_has_no_prefix() {
    let v = Variable { name: "S".to_string(), vartype: VarType::Int32, dims: vec![] };
    let data = 258i32.to_le_bytes().to_vec();
    let chunks = var_xdr(&data, &v, &vec![], 1024).unwrap();
    assert_eq!(chunks.len(), 1);
    assert_eq!(chunks[0], 258i32.to_be_bytes().to_vec());
}

#[test]
fn xdr_pack_trait_swaps_elements_in_place() {
    let mut e = ElemBytes { width: 2, bytes: vec![1, 2, 3, 4] };
    e.pack();
    assert_eq!(e.bytes, vec![2, 1, 4, 3]);
    // Raw byte payloads pass through unchanged.
    let mut raw: Vec<u8> = vec![9, 8, 7];
    raw.pack();
    assert_eq!(raw, vec![9, 8, 7]);
}

#[test]
fn encode_value_checks_width() {
    assert_eq!(encode_value(&vec![1, 2, 3, 4], 4).unwrap(), vec![4, 3, 2, 1]);
    assert_eq!(
        encode_value(&vec![1, 2, 3], 4),
        Err(dars::DapError::InternalDecodeError)
    );
}
