use ckb_tx_codec::cell::{
    CellDep, CellInput, CellOutput, DepType, OutPoint, Script, ScriptHashType,
};
use ckb_tx_codec::error::Error;
use ckb_tx_codec::transaction::TransactionView;
use ckb_tx_codec::{GraphqlBytes, Uint32, Uint64, H256};

use ckb_types::packed;
use ckb_types::prelude::{Builder, Entity, Pack, Unpack};

fn b32(x: [u8; 32]) -> packed::Byte32 {
    x.pack()
}

fn u32p(x: u32) -> packed::Uint32 {
    x.pack()
}

fn u64p(x: u64) -> packed::Uint64 {
    x.pack()
}

fn bytesp(v: Vec<u8>) -> packed::Bytes {
    bytes::Bytes::from(v).pack()
}

fn sample_out_point() -> OutPoint {
    OutPoint { tx_hash: H256::new([0x11; 32]), index: Uint32::new(7) }
}

fn sample_script() -> Script {
    Script {
        code_hash: H256::new([0x22; 32]),
        hash_type: ScriptHashType::Type,
        args: GraphqlBytes::new(vec![1, 2, 3]),
    }
}

fn packed_script() -> packed::Script {
    packed::Script::new_builder()
        .code_hash(b32([0x22; 32]))
        .hash_type(packed::Byte::new(1))
        .args(bytesp(vec![1, 2, 3]))
        .build()
}

#[test]
fn tag_round_trips() {
    for t in [ScriptHashType::Data, ScriptHashType::Type, ScriptHashType::Data1] {
        assert_eq!(ScriptHashType::decode_tag(t.encode_tag()), Ok(t));
    }
    for t in [DepType::Code, DepType::DepGroup] {
        assert_eq!(DepType::decode_tag(t.encode_tag()), Ok(t));
    }
}

#[test]
fn tag_rejections() {
    for v in [3u8, 4, 128, 255] {
        assert_eq!(ScriptHashType::decode_tag(v), Err(Error::InvalidTag));
    }
    for v in [2u8, 3, 128, 255] {
        assert_eq!(DepType::decode_tag(v), Err(Error::InvalidTag));
    }
}

#[test]
fn out_point_binary_round_trip() {
    let p = sample_out_point();
    let bin = p.to_binary();
    assert_eq!(bin.len(), 36);
    assert_eq!(OutPoint::from_binary(&bin).unwrap(), p);
    assert_eq!(OutPoint::from_binary(&bin[..35]), Err(Error::ParseBytes));
}

#[test]
fn out_point_binary_matches_reference() {
    let p = sample_out_point();
    let reference = packed::OutPoint::new_builder()
        .tx_hash(b32([0x11; 32]))
        .index(u32p(7))
        .build();
    assert_eq!(p.to_binary(), reference.as_slice());
}

#[test]
fn cell_input_binary_round_trip() {
    let i = CellInput { since: Uint64::new(0xdead_beef), previous_output: sample_out_point() };
    let bin = i.to_binary();
    assert_eq!(bin.len(), 44);
    assert_eq!(CellInput::from_binary(&bin).unwrap(), i);
    let reference = packed::CellInput::new_builder()
        .since(u64p(0xdead_beef))
        .previous_output(
            packed::OutPoint::new_builder().tx_hash(b32([0x11; 32])).index(u32p(7)).build(),
        )
        .build();
    assert_eq!(i.to_binary(), reference.as_slice());
}

#[test]
fn cell_dep_binary_round_trip() {
    let d = CellDep { out_point: sample_out_point(), dep_type: DepType::DepGroup };
    let bin = d.to_binary();
    assert_eq!(bin.len(), 37);
    assert_eq!(CellDep::from_binary(&bin).unwrap(), d);
    let mut bad = bin.clone();
    bad[36] = 2;
    assert_eq!(CellDep::from_binary(&bad), Err(Error::InvalidTag));
}

#[test]
fn script_binary_round_trip() {
    let s = sample_script();
    let bin = s.to_binary();
    assert_eq!(Script::from_binary(&bin).unwrap(), s);
    assert_eq!(bin, packed_script().as_slice());

    let empty_args = Script {
        code_hash: H256::new([0; 32]),
        hash_type: ScriptHashType::Data,
        args: GraphqlBytes::new(vec![]),
    };
    let bin = empty_args.to_binary();
    assert_eq!(bin.len(), 53);
    assert_eq!(Script::from_binary(&bin).unwrap(), empty_args);
}

#[test]
fn cell_output_optional_type_script() {
    let without = CellOutput {
        capacity: Uint64::new(500),
        lock: sample_script(),
        type_: None,
    };
    let bin = without.to_binary();
    let decoded = CellOutput::from_binary(&bin).unwrap();
    assert_eq!(decoded.type_, None);
    assert_eq!(decoded, without);
    let reference = packed::CellOutput::new_builder()
        .capacity(u64p(500))
        .lock(packed_script())
        .build();
    assert_eq!(bin, reference.as_slice());

    let with = CellOutput {
        capacity: Uint64::new(500),
        lock: sample_script(),
        type_: Some(sample_script()),
    };
    let bin = with.to_binary();
    let decoded = CellOutput::from_binary(&bin).unwrap();
    assert_eq!(decoded.type_, Some(sample_script()));
    assert_eq!(decoded, with);
    let reference = packed::CellOutput::new_builder()
        .capacity(u64p(500))
        .lock(packed_script())
        .type_(packed::ScriptOpt::new_builder().set(Some(packed_script())).build())
        .build();
    assert_eq!(bin, reference.as_slice());
}

fn sample_transaction() -> TransactionView {
    TransactionView {
        version: Uint32::new(0),
        cell_deps: vec![CellDep { out_point: sample_out_point(), dep_type: DepType::Code }],
        header_deps: vec![H256::new([0x33; 32]), H256::new([0x44; 32])],
        inputs: vec![CellInput {
            since: Uint64::new(0),
            previous_output: sample_out_point(),
        }],
        outputs: vec![CellOutput {
            capacity: Uint64::new(100_000_000),
            lock: sample_script(),
            type_: None,
        }],
        outputs_data: vec![GraphqlBytes::new(vec![0xaa, 0xbb])],
        witnesses: vec![GraphqlBytes::new(vec![0x55; 65]), GraphqlBytes::new(vec![])],
        hash: H256::new([0; 32]),
    }
}

fn packed_sample_transaction() -> packed::Transaction {
    let out_point =
        packed::OutPoint::new_builder().tx_hash(b32([0x11; 32])).index(u32p(7)).build();
    let raw = packed::RawTransaction::new_builder()
        .version(u32p(0))
        .cell_deps(
            packed::CellDepVec::new_builder()
                .set(vec![packed::CellDep::new_builder()
                    .out_point(out_point.clone())
                    .dep_type(packed::Byte::new(0))
                    .build()])
                .build(),
        )
        .header_deps(
            packed::Byte32Vec::new_builder()
                .set(vec![b32([0x33; 32]), b32([0x44; 32])])
                .build(),
        )
        .inputs(
            packed::CellInputVec::new_builder()
                .set(vec![packed::CellInput::new_builder()
                    .since(u64p(0))
                    .previous_output(out_point)
                    .build()])
                .build(),
        )
        .outputs(
            packed::CellOutputVec::new_builder()
                .set(vec![packed::CellOutput::new_builder()
                    .capacity(u64p(100_000_000))
                    .lock(packed_script())
                    .build()])
                .build(),
        )
        .outputs_data(
            packed::BytesVec::new_builder()
                .set(vec![bytesp(vec![0xaa, 0xbb])])
                .build(),
        )
        .build();
    packed::Transaction::new_builder()
        .raw(raw)
        .witnesses(
            packed::BytesVec::new_builder()
                .set(vec![
                    bytesp(vec![0x55; 65]),
                    bytesp(vec![]),
                ])
                .build(),
        )
        .build()
}

#[test]
fn transaction_binary_matches_reference() {
    let ours = sample_transaction().to_binary();
    let reference = packed_sample_transaction();
    assert_eq!(ours, reference.as_slice());
}

#[test]
fn transaction_binary_round_trip() {
    let reference = packed_sample_transaction();
    let decoded = TransactionView::from_binary(reference.as_slice()).unwrap();
    // The accepted record re-encodes byte-identically.
    assert_eq!(decoded.to_binary(), reference.as_slice());
    assert_eq!(decoded.version, Uint32::new(0));
    assert_eq!(decoded.cell_deps.len(), 1);
    assert_eq!(decoded.header_deps.len(), 2);
    assert_eq!(decoded.inputs.len(), 1);
    assert_eq!(decoded.outputs.len(), 1);
    assert_eq!(decoded.outputs_data, vec![GraphqlBytes::new(vec![0xaa, 0xbb])]);
    assert_eq!(decoded.witnesses.len(), 2);
    // The derived hash matches the reference computation.
    let unpacked: ckb_types::H256 = reference.calc_tx_hash().unpack();
    let expected: [u8; 32] = unpacked.0;
    assert_eq!(decoded.hash, H256::new(expected));
}

#[test]
fn empty_transaction_hash_derivation() {
    let reference = packed::Transaction::default();
    let decoded = TransactionView::from_binary(reference.as_slice()).unwrap();
    assert_eq!(decoded.to_binary(), reference.as_slice());
    assert!(decoded.cell_deps.is_empty());
    assert!(decoded.witnesses.is_empty());
    let unpacked: ckb_types::H256 = reference.calc_tx_hash().unpack();
    let expected: [u8; 32] = unpacked.0;
    assert_eq!(decoded.hash, H256::new(expected));
    // The golden digest of the empty structural encoding.
    assert_eq!(
        decoded.hash.to_hex(),
        "0xf2e7a5362e217ed4d7f985af71b654cafadd0c3b6d6a6c13f1b13a6bfd0d3d14"
    );
}

#[test]
fn parallel_array_mismatch_is_rejected() {
    let raw = packed::RawTransaction::new_builder()
        .outputs(
            packed::CellOutputVec::new_builder()
                .set(vec![packed::CellOutput::new_builder()
                    .capacity(u64p(1))
                    .lock(packed_script())
                    .build()])
                .build(),
        )
        .build();
    let tx = packed::Transaction::new_builder().raw(raw).build();
    assert_eq!(TransactionView::from_binary(tx.as_slice()), Err(Error::ParseBytes));
}

#[test]
fn truncated_transaction_is_rejected() {
    let reference = packed_sample_transaction();
    let bytes = reference.as_slice();
    assert_eq!(TransactionView::from_binary(&bytes[..bytes.len() - 1]), Err(Error::ParseBytes));
    assert_eq!(TransactionView::from_binary(&[]), Err(Error::ParseBytes));
}


#[test]
fn hash_type_names() {
    assert_eq!(ScriptHashType::Data.name(), "data");
    assert_eq!(ScriptHashType::Type.name(), "type");
    assert_eq!(ScriptHashType::Data1.name(), "data1");
}
