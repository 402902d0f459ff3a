//! Scalars, types, boxes, complexes, the builder and the faults of graphs.

use maitria_kernels::hypernet::cbor::{CborRefusal, CborValue};
use maitria_kernels::hypernet::graph::consumed_wires;
use maitria_kernels::hypernet::types::broadcasts_to;
use maitria_kernels::hypernet::{
    App, BuildRefusal, ConstPayload, Dtype, Ext, Hypernet, HypernetBuilder, Kind, Sign, SimpC,
    SimpCViolation, TensorType, TypeViolation, VSet, Violation, WitInt, WitRat,
};
use num_bigint::BigInt;
use num_integer::Integer;

fn wit(x: &BigInt) -> WitInt {
    WitInt::from_signed_bytes_le(x.to_signed_bytes_le())
}

#[test]
fn canonicalization() {
    let r = WitRat::new(WitInt::from_i64(4), WitInt::from_i64(-6));
    assert_eq!(r, WitRat::from_i64(-2, 3));
    assert!(r.is_canonical());
    let z = WitRat::new(WitInt::from_i64(0), WitInt::from_i64(-7));
    assert_eq!(z, WitRat::from_i64(0, 1));
}

#[test]
fn display_is_canonical_text() {
    assert_eq!(WitRat::from_i64(3, 2).text(), "3/2");
    assert_eq!(WitRat::from_i64(-2, 3).text(), "-2/3");
    assert_eq!(WitRat::from_i64(4, 2).text(), "2");
    assert_eq!(WitRat::from_i64(0, -7).text(), "0");
}

#[test]
fn den_log2() {
    assert_eq!(WitRat::from_i64(1, 1).den_log2(), 0);
    assert_eq!(WitRat::from_i64(1, 2).den_log2(), 1);
    assert_eq!(WitRat::from_i64(1, 3).den_log2(), 2);
    assert_eq!(WitRat::from_i64(1, 1024).den_log2(), 10);
    assert_eq!(WitRat::from_i64(1, 100000).den_log2(), 17);
}

#[test]
fn integers_agree_with_big_integers() {
    let samples: Vec<BigInt> = [0i128, 1, -1, 127, 128, -128, -129, 255, 256, 1 << 80, -(1 << 80)]
        .iter()
        .map(|&x| BigInt::from(x))
        .collect();
    for x in &samples {
        let w = wit(x);
        assert_eq!(w.to_signed_bytes_le(), &x.to_signed_bytes_le());
        assert_eq!(w.text(), x.to_string());
        assert_eq!(w.negate(), wit(&-x));
        assert_eq!(w.complement(), wit(&(-x - 1)));
        assert_eq!(w.is_negative(), x < &BigInt::from(0));
        for y in &samples {
            assert_eq!(w.gcd(&wit(y)), wit(&x.gcd(y)));
            if y != &BigInt::from(0) {
                assert_eq!(w.quotient(&wit(y)), wit(&(x / y)));
            }
            assert_eq!(w == wit(y), x == y);
        }
    }
    assert_eq!(
        WitInt::from_magnitude_le(vec![0xff, 0xff, 0]),
        WitInt::from_i64(65535)
    );
    assert_eq!(WitInt::from_i64(65535).to_magnitude_le(), vec![0xff, 0xff]);
    assert_eq!(
        WitInt::from_i128(i128::MIN),
        wit(&BigInt::from(i128::MIN))
    );
}

#[test]
fn integers_travel_as_cbor() {
    assert_eq!(WitInt::from_i64(-5).to_cbor_value(), CborValue::Integer(-5));
    assert_eq!(
        WitInt::from_u128(u64::MAX as u128).to_cbor_value(),
        CborValue::Integer(u64::MAX as i128)
    );
    let big = WitInt::from_u128(1 << 64);
    let v = big.to_cbor_value();
    assert!(matches!(&v, CborValue::Tag(2, _)));
    assert_eq!(WitInt::from_cbor_value(&v), Ok(big));
    let neg = WitInt::from_i128(-(1i128 << 100));
    let v = neg.to_cbor_value();
    assert!(matches!(&v, CborValue::Tag(3, _)));
    assert_eq!(WitInt::from_cbor_value(&v), Ok(neg));
    assert_eq!(
        WitInt::from_tagged(2, &[1, 0]),
        Ok(WitInt::from_i64(256))
    );
    assert_eq!(
        WitInt::from_tagged(3, &[1, 0]),
        Ok(WitInt::from_i64(-257))
    );
    assert_eq!(
        WitInt::from_tagged(4, &[]),
        Err(CborRefusal::NotABignumTag { tag: 4 })
    );
    assert_eq!(
        WitInt::from_cbor_value(&CborValue::Tag(2, Box::new(CborValue::Other))),
        Err(CborRefusal::PayloadNotBytes { tag: 2 })
    );
    assert_eq!(
        WitInt::from_cbor_value(&CborValue::Bytes(vec![])),
        Err(CborRefusal::NotAnInteger)
    );
}

#[test]
fn codes_of_element_types() {
    for (code, kind) in [
        Kind::Bool,
        Kind::Int,
        Kind::Rat,
        Kind::F16,
        Kind::Bf16,
        Kind::F32,
        Kind::F64,
    ]
    .into_iter()
    .enumerate()
    {
        assert_eq!(kind.to_u8(), code as u8);
        assert_eq!(Kind::from_u8(code as u8), Some(kind));
    }
    assert_eq!(Kind::from_u8(7), None);
    assert_eq!(Sign::from_u8(Sign::NonNeg.to_u8()), Some(Sign::NonNeg));
    assert_eq!(Sign::from_u8(200), None);
    assert_eq!(Ext::from_u8(Ext::Ext.to_u8()), Some(Ext::Ext));
    assert_eq!(Ext::from_u8(200), None);
}

#[test]
fn tensor_types() {
    let t = TensorType::rat(vec![2, 3]);
    assert_eq!(t.size(), 6);
    assert_eq!(TensorType::rat(vec![]).size(), 1);
    assert_eq!(TensorType::boolean(vec![0, 5]).size(), 0);
    assert_eq!(t, TensorType::new(Dtype::rat(), vec![2, 3]));
    assert_ne!(t, TensorType::boolean(vec![2, 3]));
    assert!(t.text().contains("Rat"));
}

#[test]
fn broadcasting() {
    assert!(broadcasts_to(&[3], &[2, 3]));
    assert!(broadcasts_to(&[1, 3], &[2, 3]));
    assert!(broadcasts_to(&[], &[2, 3]));
    assert!(!broadcasts_to(&[2], &[2, 3]));
    assert!(!broadcasts_to(&[2, 3], &[3]));
}

#[test]
fn boxes_name_their_wires() {
    let a = App::Contract {
        inputs: vec![4, 2],
        output: 9,
        extents: vec![3],
        in_bindings: vec![vec![0], vec![0]],
        out_binding: vec![],
    };
    assert_eq!((a.tag(), a.name()), (1, "contract"));
    assert_eq!(a.input_wires(), vec![4, 2]);
    assert_eq!(a.output_wires(), vec![9]);
    let b = a.remap_wires(|w| w + 10, |c| c);
    assert_eq!(b.input_wires(), vec![14, 12]);
    assert_eq!(b.output_wires(), vec![19]);
    let c = App::Cell {
        complex_idx: 1,
        inp: 0,
        outs: vec![5, 6],
    };
    assert_eq!(
        c.remap(&mut |w| w * 2, &mut |c| c + 7),
        App::Cell {
            complex_idx: 8,
            inp: 0,
            outs: vec![10, 12]
        }
    );
    assert_eq!(App::Swap { in1: 1, in2: 2, out1: 3, out2: 4 }.output_wires(), vec![3, 4]);
}

#[test]
fn renaming_asks_each_wire_once_in_order() {
    let a = App::Contract {
        inputs: vec![4, 2, 4],
        output: 9,
        extents: vec![3],
        in_bindings: vec![vec![0], vec![0], vec![]],
        out_binding: vec![],
    };
    let mut asked = Vec::new();
    let mut complexes = 0;
    let b = a.remap(
        &mut |w| {
            asked.push(w);
            100 + asked.len() as u32
        },
        &mut |c| {
            complexes += 1;
            c
        },
    );
    assert_eq!(asked, vec![4, 2, 4, 9]);
    assert_eq!(complexes, 0);
    assert_eq!(b.input_wires(), vec![101, 102, 103]);
    assert_eq!(b.output_wires(), vec![104]);
    let c = App::Cell { complex_idx: 6, inp: 1, outs: vec![2, 3] };
    let mut next = 0;
    let d = c.remap(
        &mut |_| {
            next += 1;
            next
        },
        &mut |c| {
            complexes += 1;
            c + 10
        },
    );
    assert_eq!(complexes, 1);
    assert_eq!(d, App::Cell { complex_idx: 16, inp: 1, outs: vec![2, 3] });
}

#[test]
fn copies_hold_the_same() {
    let mut b = HypernetBuilder::default();
    let mut c = segment();
    c.hint = "left first".to_string();
    let k = b.add_complex(c).unwrap();
    let w = b.input_named(TensorType::rat(vec![1]), "x");
    let mut twin = b.clone();
    let outs = b.cell(k, w).unwrap();
    let h = b.finish(outs.clone()).unwrap();
    assert_eq!(h.complexes[0].hint, "left first");
    let copy = h.clone();
    assert!(copy == h);
    assert_eq!(copy.complexes[0].hint, "left first");
    assert_eq!(copy.wire_names, h.wire_names);
    assert_eq!(copy.apps[0].clone(), h.apps[0]);
    assert_eq!(twin.cell(k, w), Ok(outs));
    assert_eq!(WitInt::from(-7i64), WitInt::from_i64(-7));
}

fn set(xs: &[u32]) -> VSet {
    xs.iter().copied().collect()
}

fn q(n: i64, d: i64) -> WitRat {
    WitRat::from_i64(n, d)
}

fn segment() -> SimpC {
    SimpC::new(
        1,
        vec![vec![q(0, 1)], vec![q(3, 2)]],
        vec![set(&[0]), set(&[1]), set(&[0, 1])],
        vec![(set(&[0, 1]), set(&[1]))],
    )
}

#[test]
fn complexes_are_validated() {
    assert_eq!(segment().validate(), vec![]);
    let mut c = segment();
    c.vertices[1].push(q(1, 1));
    assert_eq!(
        c.validate(),
        vec![SimpCViolation::VertexDimMismatch {
            vertex: 1,
            len: 2,
            amb_dim: 1
        }]
    );
    let mut c = segment();
    c.simplices.push(set(&[]));
    assert_eq!(c.validate()[0], SimpCViolation::EmptySimplex { simplex: 3 });
    let mut c = segment();
    c.simplices.push(set(&[5]));
    assert_eq!(
        c.validate()[0],
        SimpCViolation::VertexOutOfRange {
            simplex: 3,
            vertex: 5
        }
    );
    let mut c = segment();
    c.simplices.remove(0);
    assert_eq!(
        c.validate(),
        vec![SimpCViolation::MissingFace {
            simplex: 1,
            removed_vertex: 1
        }]
    );
    let mut c = segment();
    c.cells[0].0 = set(&[7]);
    c.cells[0].1 = set(&[7]);
    assert!(c
        .validate()
        .contains(&SimpCViolation::CellMaskNotSimplex { cell: 0 }));
    let mut c = segment();
    c.cells[0] = (set(&[0]), set(&[1]));
    assert!(c
        .validate()
        .contains(&SimpCViolation::CellExtNotSubset { cell: 0 }));
    let mut c = segment();
    c.cells[0] = (set(&[0]), set(&[0]));
    assert!(c
        .validate()
        .contains(&SimpCViolation::CellNoCoreVertex { cell: 0 }));
    assert!(segment().has_simplex(&set(&[0, 1])));
    assert!(!segment().has_simplex(&set(&[])));
}

#[test]
fn built_graphs_are_well_formed() {
    let mut b = HypernetBuilder::new();
    let x = b.input_named(TensorType::rat(vec![2]), "x");
    let ones = b
        .constant(
            TensorType::rat(vec![2]),
            ConstPayload::Rat(vec![q(1, 1), q(1, 1)]),
        )
        .unwrap();
    let dot = b
        .contract(&[x, ones], &[2], &[vec![0], vec![0]], &[])
        .unwrap();
    assert_eq!(b.wire_type(dot), Some(&TensorType::rat(vec![])));
    let net = b.finish(vec![dot]).unwrap();
    assert_eq!(net.preflight(), vec![]);
    assert_eq!(net.graph_inputs, vec![x]);
    assert_eq!(net.graph_outputs, vec![dot]);
    assert_eq!(net.apps.len(), 2);
    assert_eq!(net.wire_names.get(&x).map(String::as_str), Some("x"));
}

#[test]
fn builder_refusals() {
    let mut b = HypernetBuilder::new();
    let x = b.input(TensorType::rat(vec![2]));
    assert_eq!(b.delete(9), Err(BuildRefusal::UnknownWire { wire: 9 }));
    assert_eq!(
        b.contract(&[], &[], &[], &[]),
        Err(BuildRefusal::ContractNoInputs)
    );
    assert_eq!(b.copy(x, 0), Err(BuildRefusal::CopyNoBranches));
    assert_eq!(b.stack(&[]), Err(BuildRefusal::StackNoInputs));
    assert_eq!(
        b.cell(0, x),
        Err(BuildRefusal::ComplexIndexOutOfRange {
            complex_idx: 0,
            pool_len: 0
        })
    );
    let mut bad = segment();
    bad.simplices.clear();
    assert!(matches!(
        b.add_complex(bad),
        Err(BuildRefusal::InvalidComplex { complex_idx: 0, .. })
    ));
    assert_eq!(
        b.reshape(x, &[3]),
        Err(BuildRefusal::Typing(TypeViolation::ReshapeSize {
            from_size: 2,
            to_size: 3
        }))
    );
    assert_eq!(
        b.constant(TensorType::rat(vec![2]), ConstPayload::Rat(vec![])),
        Err(BuildRefusal::Typing(TypeViolation::ConstPayloadSize {
            expected: 2,
            got: 0
        }))
    );
    assert_eq!(
        b.constant(TensorType::rat(vec![1]), ConstPayload::Bits(vec![true])),
        Err(BuildRefusal::Typing(TypeViolation::ConstPayloadKind {
            kind: Kind::Rat,
            rational_payload: false
        }))
    );
    b.delete(x).unwrap();
    assert_eq!(
        b.delete(x),
        Err(BuildRefusal::WireAlreadyConsumed { wire: x, by_app: 0 })
    );
    assert_eq!(
        b.finish(vec![x]),
        Err(BuildRefusal::OutputConsumed { wire: x, by_app: 0 })
    );
}

#[test]
fn faults_are_placed() {
    let scalar = TensorType::rat(vec![]);
    let net = Hypernet {
        wire_types: vec![scalar.clone(), scalar.clone()],
        apps: vec![App::Copy { inp: 0, outs: vec![1] }],
        graph_inputs: vec![0],
        graph_outputs: vec![1],
        ..Default::default()
    };
    assert_eq!(net.preflight(), vec![]);
    assert_eq!(net.wtype(1), Some(&scalar));
    assert_eq!(net.wtype(2), None);
    let mut bad = Hypernet {
        wire_types: vec![scalar.clone(), TensorType::boolean(vec![])],
        apps: vec![App::Copy { inp: 0, outs: vec![1] }],
        graph_inputs: vec![0],
        graph_outputs: vec![1],
        ..Default::default()
    };
    assert_eq!(
        bad.preflight(),
        vec![Violation::Typing {
            app: 0,
            box_name: "copy",
            violation: TypeViolation::CopyOutputType { wire: 1 }
        }]
    );
    bad.wire_types[1] = scalar.clone();
    bad.apps.push(App::Delete { inp: 0 });
    assert_eq!(
        bad.preflight(),
        vec![Violation::WireConsumedTwice {
            wire: 0,
            first_app: 0,
            second_app: 1
        }]
    );
    bad.apps[1] = App::Delete { inp: 7 };
    assert!(bad.preflight().contains(&Violation::WireOutOfRange {
        app: 1,
        wire: 7,
        table_len: 2
    }));
    bad.apps[1] = App::Cell {
        complex_idx: 3,
        inp: 1,
        outs: vec![],
    };
    assert!(bad.preflight().contains(&Violation::ComplexIndexOutOfRange {
        app: 1,
        complex_idx: 3,
        pool_len: 0
    }));
    let unmade = Hypernet {
        wire_types: vec![scalar.clone()],
        graph_outputs: vec![0],
        ..Default::default()
    };
    assert_eq!(
        unmade.preflight(),
        vec![Violation::GraphOutputNeverProduced { wire: 0 }]
    );
    let early = Hypernet {
        wire_types: vec![scalar.clone()],
        apps: vec![App::Delete { inp: 0 }],
        ..Default::default()
    };
    assert_eq!(
        early.preflight(),
        vec![Violation::ReadBeforeProduction {
            app: 0,
            box_name: "delete",
            wire: 0
        }]
    );
}

#[test]
fn integers_are_ordered_by_value() {
    let values = [-70000i64, -256, -255, -129, -128, -1, 0, 1, 127, 128, 255, 256, 70000];
    for a in values {
        for b in values {
            let (x, y) = (WitInt::from_i64(a), WitInt::from_i64(b));
            assert_eq!(x.partial_cmp(&y), a.partial_cmp(&b));
            assert_eq!(x < y, a < b);
        }
    }
}

#[test]
fn consumed_wires_are_the_inputs_of_the_boxes() {
    let apps = vec![
        App::Cast { inp: 3, out: 4 },
        App::Copy { inp: 4, outs: vec![5, 6] },
        App::Swap { in1: 5, in2: 6, out1: 7, out2: 8 },
        App::Delete { inp: 8 },
    ];
    let all: Vec<u32> = consumed_wires(&apps).into_iter().collect();
    assert_eq!(all, vec![3, 4, 5, 6, 8]);
    assert!(consumed_wires(&[]).is_empty());
}
