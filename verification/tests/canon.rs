//! The canonical bytes of graphs, and their digests.

use maitria_kernels::hypernet::canon::readers::{cap, r_bitset, r_dtype, r_q_element, r_u64};
use maitria_kernels::hypernet::canon::writers::{w_bitset, w_dtype, w_q_element, w_shape, w_u32, w_u64};
use maitria_kernels::hypernet::{
    App, CanonRefusal, ConstPayload, Dtype, Ext, Hypernet, HypernetBuilder, HypernetDigest, Kind,
    Sign, SimpC, TensorType, VSet, WitInt, WitRat, MAGIC,
};
use num_bigint::BigInt;
use sha2::Digest;

fn q(num: i64, den: i64) -> WitRat {
    WitRat::from_i64(num, den)
}

fn wit(x: &BigInt) -> WitInt {
    WitInt::from_signed_bytes_le(x.to_signed_bytes_le())
}

fn hex(b: &[u8]) -> String {
    b.iter().map(|b| format!("{b:02x}")).collect()
}

#[test]
fn q_element_matches_reference_vectors() {
    let cases: Vec<(WitRat, &str)> = vec![
        (q(0, 1), "01000000010000000001"),
        (q(1, 1), "01000000010000000101"),
        (q(-1, 1), "0100000001000000ff01"),
        (q(127, 1), "01000000010000007f01"),
        (q(128, 1), "0200000001000000800001"),
        (q(-128, 1), "01000000010000008001"),
        (q(-129, 1), "02000000010000007fff01"),
        (q(255, 1), "0200000001000000ff0001"),
        (q(256, 1), "0200000001000000000101"),
        (q(3, 2), "01000000010000000302"),
        (q(-7, 3), "0100000001000000f903"),
    ];
    for (val, hex) in &cases {
        let mut out = Vec::new();
        w_q_element(&mut out, val).unwrap();
        let got: String = out.iter().map(|b| format!("{b:02x}")).collect();
        assert_eq!(&got, hex, "encoding of {val:?}");
    }
    let big = BigInt::from(2u8).pow(80);
    let pos = WitRat::new(wit(&big), WitInt::from_i64(3));
    let mut out = Vec::new();
    w_q_element(&mut out, &pos).unwrap();
    assert_eq!(
        out.iter().map(|b| format!("{b:02x}")).collect::<String>(),
        "0b00000001000000000000000000000000000103"
    );
    let neg = WitRat::new(wit(&-big), WitInt::from_i64(5));
    let mut out = Vec::new();
    w_q_element(&mut out, &neg).unwrap();
    assert_eq!(
        out.iter().map(|b| format!("{b:02x}")).collect::<String>(),
        "0b0000000100000000000000000000000000ff05"
    );
}

#[test]
fn q_element_roundtrip() {
    for (n, d) in [(0i64, 1i64), (1, 1), (-1, 1), (128, 1), (-129, 1), (22, 7)] {
        let val = q(n, d);
        let mut out = Vec::new();
        w_q_element(&mut out, &val).unwrap();
        let (back, off) = r_q_element(&out, 0).unwrap();
        assert_eq!(back, val);
        assert_eq!(off, out.len());
    }
}

#[test]
fn rationals_that_are_not_canonical_are_not_written() {
    let bad = WitRat(WitInt::from_i64(2), WitInt::from_i64(4));
    let mut out = vec![7u8];
    assert_eq!(
        w_q_element(&mut out, &bad),
        Err(CanonRefusal::EncodeNonCanonicalRational)
    );
    assert_eq!(out, vec![7]);
}

fn refused(bytes: &[u8]) -> &'static str {
    match r_q_element(bytes, 0) {
        Err(CanonRefusal::NonCanonicalRational { offset: 0, why }) => why,
        other => panic!("{other:?}"),
    }
}

#[test]
fn rationals_that_are_not_canonical_are_not_read() {
    assert_eq!(refused(&[0, 0, 0, 0, 1, 0, 0, 0, 1]), "zero-length component");
    assert_eq!(
        refused(&[2, 0, 0, 0, 1, 0, 0, 0, 1, 0, 1]),
        "non-minimal numerator encoding"
    );
    assert_eq!(
        refused(&[2, 0, 0, 0, 1, 0, 0, 0, 0xff, 0xff, 1]),
        "non-minimal numerator encoding"
    );
    assert_eq!(refused(&[1, 0, 0, 0, 1, 0, 0, 0, 1, 0]), "denominator < 1");
    assert_eq!(
        refused(&[1, 0, 0, 0, 2, 0, 0, 0, 1, 1, 0]),
        "non-minimal denominator encoding"
    );
    assert_eq!(refused(&[1, 0, 0, 0, 1, 0, 0, 0, 2, 4]), "gcd(num, den) != 1");
    assert_eq!(refused(&[1, 0, 0, 0, 1, 0, 0, 0, 0, 4]), "gcd(num, den) != 1");
    assert_eq!(
        r_q_element(&[1, 0, 0, 0, 2, 0, 0, 0, 1, 1], 0),
        Err(CanonRefusal::Truncated {
            offset: 9,
            needed: 2,
            available: 1,
            what: "rational denominator bytes"
        })
    );
}

#[test]
fn parts_are_little_endian() {
    let mut out = Vec::new();
    w_u32(&mut out, 0x0403_0201);
    w_u64(&mut out, 0x0c0b_0a09_0807_0605);
    assert_eq!(out, (1..=12u8).collect::<Vec<u8>>());
    assert_eq!(r_u64(&out, 4, "word"), Ok((0x0c0b_0a09_0807_0605, 12)));
    let mut out = Vec::new();
    w_shape(&mut out, &vec![2, 3]);
    assert_eq!(hex(&out), "0200000002000000000000000300000000000000");
    let mut out = Vec::new();
    w_dtype(&mut out, Dtype { kind: Kind::F32, sign: Sign::NonNeg, ext: Ext::Ext });
    assert_eq!(out.len(), 4);
    assert_eq!(
        r_dtype(&out, 0),
        Ok((Dtype { kind: Kind::F32, sign: Sign::NonNeg, ext: Ext::Ext }, 4))
    );
}

#[test]
fn bitsets_are_lowest_bit_first() {
    let mut out = Vec::new();
    w_bitset(&mut out, &vec![0, 3, 8], 9);
    assert_eq!(out, vec![0b1001, 1]);
    let want: VSet = [0u32, 3, 8].into_iter().collect();
    assert_eq!(r_bitset(&out, 0, 9), Ok((want, 2)));
    assert_eq!(
        r_bitset(&out, 0, 8),
        Ok(([0u32, 3].into_iter().collect(), 1))
    );
    assert_eq!(
        r_bitset(&[0b1000], 0, 3),
        Err(CanonRefusal::BitsetOverflow { offset: 0, n: 3 })
    );
}

#[test]
fn element_types_are_checked_byte_by_byte() {
    for (bytes, offset, what, got) in [
        ([9u8, 0, 0, 0], 0usize, "dtype kind", 9u8),
        ([0, 9, 0, 0], 1, "dtype sign", 9),
        ([0, 0, 9, 0], 2, "dtype ext", 9),
        ([0, 0, 0, 9], 3, "dtype pad", 9),
    ] {
        assert_eq!(
            r_dtype(&bytes, 0),
            Err(CanonRefusal::UnknownByte { offset, what, got })
        );
    }
}

fn set(xs: &[u32]) -> VSet {
    xs.iter().copied().collect()
}

/// A segment with its ends, and two cells.
fn segment() -> SimpC {
    SimpC::new(
        1,
        vec![vec![q(0, 1)], vec![q(3, 2)]],
        vec![set(&[0, 1]), set(&[1]), set(&[0])],
        vec![(set(&[0, 1]), set(&[])), (set(&[0, 1]), set(&[1]))],
    )
}

/// A graph with every kind of box.
fn sample() -> Hypernet {
    let mut b = HypernetBuilder::new();
    let x = b.input_named(TensorType::rat(vec![2, 3]), "x");
    let y = b.input(TensorType::rat(vec![3]));
    let point = b.input(TensorType::rat(vec![1]));
    let idx = b.add_complex(segment()).unwrap();
    let xy = b
        .contract(&[x, y], &[2, 3], &[vec![0, 1], vec![1]], &[0])
        .unwrap();
    let cells = b.cell(idx, point).unwrap();
    let c = b
        .constant(
            TensorType::rat(vec![2]),
            ConstPayload::Rat(vec![q(-7, 3), q(128, 1)]),
        )
        .unwrap();
    let bits = b
        .constant(
            TensorType::boolean(vec![9]),
            ConstPayload::Bits(vec![true, false, false, true, false, false, false, false, true]),
        )
        .unwrap();
    let (c2, xy2) = b.swap(c, xy).unwrap();
    let stacked = b.stack(&[c2, xy2]).unwrap();
    let flat = b.reshape(stacked, &[4]).unwrap();
    let wide = b.broadcast(flat, &[5, 4]).unwrap();
    let copies = b.copy(wide, 2).unwrap();
    b.delete(copies[0]).unwrap();
    let cast = b.cast(bits, Dtype::integer()).unwrap();
    b.finish(vec![copies[1], cast, cells[0], cells[1]]).unwrap()
}

#[test]
fn reading_gives_the_graph_back_in_order() {
    let net = sample();
    let bytes = net.canonical_bytes().unwrap();
    assert_eq!(&bytes[..8], &MAGIC);
    assert_eq!(&bytes[..8], b"AXHN0001");
    let back = Hypernet::from_canonical_bytes(&bytes).unwrap();
    assert_eq!(back.canonical_bytes().unwrap(), bytes);
    assert_eq!(back.preflight(), vec![]);
    assert!(back.wire_names.is_empty());
    let mut ordered = sample();
    ordered.complexes[0].simplices = vec![set(&[0]), set(&[1]), set(&[0, 1])];
    assert_eq!(back, ordered);
    assert_eq!(ordered.canonical_bytes().unwrap(), bytes);
}

#[test]
fn names_and_hints_are_not_written() {
    let mut net = sample();
    let bytes = net.canonical_bytes().unwrap();
    net.wire_names.insert(1, "other".to_string());
    net.complexes[0].hint = "fast".to_string();
    assert_eq!(net.canonical_bytes().unwrap(), bytes);
    assert_eq!(net.digest(), sample().digest());
}

#[test]
fn every_byte_counts() {
    let bytes = sample().canonical_bytes().unwrap();
    for i in 0..bytes.len() {
        for flip in [1u8, 0x80] {
            let mut other = bytes.clone();
            other[i] ^= flip;
            if let Ok(net) = Hypernet::from_canonical_bytes(&other) {
                assert_eq!(net.canonical_bytes().unwrap(), other, "byte {i}");
            }
        }
    }
}

#[test]
fn every_prefix_is_refused() {
    let bytes = sample().canonical_bytes().unwrap();
    for n in 0..bytes.len() {
        assert!(Hypernet::from_canonical_bytes(&bytes[..n]).is_err(), "prefix {n}");
    }
    let mut long = bytes.clone();
    long.extend([1, 2, 3]);
    assert_eq!(
        Hypernet::from_canonical_bytes(&long),
        Err(CanonRefusal::TrailingBytes { got: 3 })
    );
}

#[test]
fn empty_graph_has_these_bytes() {
    let net = Hypernet::default();
    let bytes = net.canonical_bytes().unwrap();
    assert_eq!(hex(&bytes), "4158484e303030310000000000000000000000000000000000000000");
    assert_eq!(Hypernet::from_canonical_bytes(&bytes), Ok(net));
}

#[test]
fn small_graph_has_these_bytes() {
    let net = Hypernet {
        wire_types: vec![TensorType::rat(vec![2])],
        apps: vec![App::Delete { inp: 0 }],
        graph_inputs: vec![0],
        ..Default::default()
    };
    assert_eq!(
        hex(&net.canonical_bytes().unwrap()),
        "4158484e30303031010000000201000001000000020000000000000000000000\
         01000000070400000000000001000000\
         0000000000000000"
    );
}

fn header() -> Vec<u8> {
    MAGIC.to_vec()
}

fn word(x: u32) -> [u8; 4] {
    x.to_le_bytes()
}

#[test]
fn refusals_name_their_place() {
    assert_eq!(
        Hypernet::from_canonical_bytes(b"AXHN0002"),
        Err(CanonRefusal::BadMagic {
            got: b"AXHN0002".to_vec()
        })
    );
    assert_eq!(
        Hypernet::from_canonical_bytes(b"AXHN"),
        Err(CanonRefusal::Truncated {
            offset: 0,
            needed: 8,
            available: 4,
            what: "magic"
        })
    );
    // No types, no complexes, one application with an unknown tag.
    let mut b = header();
    b.extend(word(0));
    b.extend(word(0));
    b.extend(word(1));
    let mut tagged = b.clone();
    tagged.extend([10, 4, 0, 0]);
    assert_eq!(
        Hypernet::from_canonical_bytes(&tagged),
        Err(CanonRefusal::UnknownTag {
            offset: 20,
            tag: 10
        })
    );
    let mut rounded = b.clone();
    rounded.extend([10, 3, 1, 2]);
    assert_eq!(
        Hypernet::from_canonical_bytes(&rounded),
        Err(CanonRefusal::BadAppHeader {
            offset: 20,
            round: 3,
            pad: 0x0201
        })
    );
    // A constant on a wire without a type.
    let mut wired = b.clone();
    wired.extend([0, 4, 0, 0]);
    wired.extend(word(5));
    assert_eq!(
        Hypernet::from_canonical_bytes(&wired),
        Err(CanonRefusal::DecodeWireOutOfRange {
            offset: 24,
            wire: 5,
            table_len: 0
        })
    );
}

#[test]
fn repeated_fields_must_agree() {
    let net = Hypernet {
        wire_types: vec![TensorType::rat(vec![2]), TensorType::boolean(vec![2])],
        apps: vec![App::Cast { inp: 0, out: 1 }],
        graph_inputs: vec![0],
        graph_outputs: vec![1],
        ..Default::default()
    };
    let bytes = net.canonical_bytes().unwrap();
    assert_eq!(Hypernet::from_canonical_bytes(&bytes), Ok(net));
    let body = 8 + 4 + 16 + 16 + 4 + 4 + 4;
    let mut bad = bytes.clone();
    bad[body] = 1;
    assert_eq!(
        Hypernet::from_canonical_bytes(&bad),
        Err(CanonRefusal::RedundantFieldMismatch {
            offset: body,
            what: "cast input dtype/shape"
        })
    );
    let mut bad = bytes.clone();
    bad[body + 4] = 1;
    assert_eq!(
        Hypernet::from_canonical_bytes(&bad),
        Err(CanonRefusal::RedundantFieldMismatch {
            offset: body,
            what: "cast output dtype"
        })
    );
    let net = Hypernet {
        wire_types: vec![TensorType::rat(vec![]), TensorType::rat(vec![])],
        apps: vec![App::Contract {
            inputs: vec![0],
            output: 1,
            extents: vec![],
            in_bindings: vec![vec![]],
            out_binding: vec![],
        }],
        graph_inputs: vec![0],
        graph_outputs: vec![1],
        ..Default::default()
    };
    let mut bad = net.canonical_bytes().unwrap();
    assert_eq!(Hypernet::from_canonical_bytes(&bad), Ok(net));
    let body = 8 + 4 + 8 + 8 + 4 + 4 + 4;
    bad[body] = 0;
    assert_eq!(
        Hypernet::from_canonical_bytes(&bad),
        Err(CanonRefusal::RedundantFieldMismatch {
            offset: body,
            what: "contract output dtype"
        })
    );
}

#[test]
fn simplices_must_be_in_order() {
    let net = Hypernet {
        complexes: vec![segment()],
        ..Default::default()
    };
    let bytes = net.canonical_bytes().unwrap();
    let at = bytes.windows(3).position(|w| w == [1, 2, 3]).unwrap();
    let mut bad = bytes.clone();
    bad[at] = 2;
    bad[at + 1] = 1;
    assert_eq!(
        Hypernet::from_canonical_bytes(&bad),
        Err(CanonRefusal::NonCanonicalSimplexOrder { offset: at + 1 })
    );
    let mut bad = bytes.clone();
    bad[at] = 3;
    assert_eq!(
        Hypernet::from_canonical_bytes(&bad),
        Err(CanonRefusal::NonCanonicalSimplexOrder { offset: at + 1 })
    );
    let mut bad = bytes.clone();
    bad[at] = 4;
    assert_eq!(
        Hypernet::from_canonical_bytes(&bad),
        Err(CanonRefusal::BitsetOverflow { offset: at, n: 2 })
    );
    // Twice the same simplex is in order.
    let mut twice = bytes.clone();
    twice[at + 1] = 1;
    assert!(Hypernet::from_canonical_bytes(&twice).is_ok());
}

#[test]
fn capacity_follows_the_bytes_that_remain() {
    let b = [0u8; 20];
    assert_eq!(cap(&b, 0, 3, 8), 3);
    assert_eq!(cap(&b, 4, 1000, 8), 3);
    assert_eq!(cap(&b, 20, 1000, 4), 1);
    assert_eq!(cap(&b, 12, 1000, 0), 9);
    assert_eq!(cap(&b, 0, 0, 4), 0);
}

#[test]
fn simplex_order_is_no_part_of_the_bytes() {
    let faces: Vec<VSet> = vec![[0].into(), [1].into(), [0, 1].into()];
    let net = |order: &[usize]| {
        let simplices = order.iter().map(|&i| faces[i].clone()).collect();
        let mut h = Hypernet::default();
        h.complexes.push(SimpC::new(
            1,
            vec![vec![q(0, 1)], vec![q(3, 2)]],
            simplices,
            vec![([0, 1].into(), [1].into())],
        ));
        h
    };
    let (x, y) = (net(&[0, 1, 2]), net(&[2, 1, 0]));
    assert!(x != y);
    assert_eq!(x.canonical_bytes().unwrap(), y.canonical_bytes().unwrap());
    assert_eq!(x.digest().unwrap().to_hex(), y.digest().unwrap().to_hex());
}

#[test]
fn no_encoding_begins_another() {
    let mut b = HypernetBuilder::new();
    let u = b.input(TensorType::rat(vec![]));
    let t = b.stack(&[u]).unwrap();
    let mut c = SimpC::new(1, vec![vec![q(0, 1)]], vec![[0].into()], vec![([0].into(), [].into())]);
    c.hint = "a point".to_string();
    let k = b.add_complex(c).unwrap();
    let outs = b.cell(k, t).unwrap();
    let h = b.finish(outs).unwrap();
    let bytes = h.canonical_bytes().unwrap();
    for n in 0..bytes.len() {
        assert!(Hypernet::from_canonical_bytes(&bytes[..n]).is_err());
    }
    for extra in 1..4usize {
        let mut longer = bytes.clone();
        longer.resize(bytes.len() + extra, 1);
        assert!(matches!(
            Hypernet::from_canonical_bytes(&longer),
            Err(CanonRefusal::TrailingBytes { got }) if got == extra
        ));
    }
    let back = Hypernet::from_canonical_bytes(&bytes).unwrap();
    assert!(back == h);
    assert_eq!(back.complexes[0].hint, "");
    assert!(back.wire_names.is_empty());
}

#[test]
fn counts_of_nothing_are_bounded() {
    let mut b = header();
    b.extend(word(0));
    b.extend(word(1));
    let mut bad = b.clone();
    bad.extend(word(2000));
    bad.extend(word(0));
    assert_eq!(
        Hypernet::from_canonical_bytes(&bad),
        Err(CanonRefusal::LengthOverflow {
            offset: 24,
            got: 2000,
            what: "vertices"
        })
    );
    let mut bad = b.clone();
    bad.extend(word(0));
    bad.extend(word(3));
    bad.extend(word(1025));
    assert_eq!(
        Hypernet::from_canonical_bytes(&bad),
        Err(CanonRefusal::LengthOverflow {
            offset: 28,
            got: 1025,
            what: "simplices"
        })
    );
    let mut bad = b.clone();
    bad.extend(word(0));
    bad.extend(word(3));
    bad.extend(word(0));
    bad.extend(word(1025));
    assert_eq!(
        Hypernet::from_canonical_bytes(&bad),
        Err(CanonRefusal::LengthOverflow {
            offset: 32,
            got: 1025,
            what: "cells"
        })
    );
    let mut fine = b.clone();
    fine.extend(word(1024));
    fine.extend(word(0));
    fine.extend(word(0));
    fine.extend(word(0));
    fine.extend(word(0));
    fine.extend(word(0));
    fine.extend(word(0));
    let net = Hypernet::from_canonical_bytes(&fine).unwrap();
    assert_eq!(net.complexes[0].vertices.len(), 1024);
    assert_eq!(net.canonical_bytes().unwrap(), fine);
}

#[test]
fn graphs_that_cannot_be_written_are_refused() {
    let mut net = sample();
    net.complexes[0].vertices[0][0] = WitRat(WitInt::from_i64(0), WitInt::from_i64(2));
    assert_eq!(
        net.canonical_bytes(),
        Err(CanonRefusal::EncodeNonCanonicalRational)
    );
    assert_eq!(net.digest(), Err(CanonRefusal::EncodeNonCanonicalRational));
    let net = Hypernet {
        apps: vec![App::Delete { inp: 4 }, App::Cast { inp: 7, out: 8 }],
        ..Default::default()
    };
    assert_eq!(
        net.canonical_bytes(),
        Err(CanonRefusal::EncodeWireOutOfRange {
            app: 1,
            wire: 7,
            table_len: 0
        })
    );
}

#[test]
fn digest_is_the_hash_of_the_bytes() {
    let net = sample();
    let bytes = net.canonical_bytes().unwrap();
    let want: [u8; 32] = sha2::Sha256::digest(&bytes).into();
    assert_eq!(net.digest().unwrap().0, want);
    assert_eq!(
        Hypernet::default().digest().unwrap().to_hex(),
        hex(&sha2::Sha256::digest(Hypernet::default().canonical_bytes().unwrap()))
    );
    assert_ne!(net.digest(), Hypernet::default().digest());
}

#[test]
fn digests_have_a_hexadecimal_form() {
    let mut bytes = [0u8; 32];
    for (i, b) in bytes.iter_mut().enumerate() {
        *b = (i * 9) as u8;
    }
    let d = HypernetDigest(bytes);
    let text = d.to_hex();
    assert_eq!(text, hex(&bytes));
    assert_eq!(HypernetDigest::from_hex(&text), Some(d));
    assert_eq!(HypernetDigest::from_hex(&text.to_uppercase()), Some(d));
    assert_eq!(HypernetDigest::from_hex(&text[1..]), None);
    assert_eq!(HypernetDigest::from_hex(&text.replace("00", "0g")), None);
    assert_eq!(HypernetDigest::from_hex(&"\u{e9}".repeat(32)), None);
}
