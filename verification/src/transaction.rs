//! The typed transaction and its canonical binary layout.
//!
//! A transaction is a two-field record: the raw (structural) portion and
//! the witnesses. The raw portion carries the version, the cell deps, the
//! header deps, the inputs, the outputs and the parallel output-data
//! array. The transaction hash is the digest of the raw portion's
//! canonical encoding, computed by an outside hash function and never
//! recomputed from the typed form.

use vstd::prelude::*;
use vstd::bytes::*;
use vstd::slice::{slice_subrange, slice_to_vec};

use ckb_types::prelude::{Entity, Reader};

use crate::cell::{
    bytes_enc, cell_dep_enc, cell_input_enc, cell_output_enc, cell_output_wf, dep_type_from_tag,
    dep_type_tag, read_hash, CellDep, CellInput, CellOutput,
};
use crate::error::Error;
use crate::{GraphqlBytes, H256, Uint32};

verus! {

/// The concatenation of a sequence of byte sequences, in order.
pub open spec fn cat(items: Seq<Seq<u8>>) -> Seq<u8>
    decreases items.len(),
{
    if items.len() == 0 {
        Seq::empty()
    } else {
        cat(items.drop_last()) + items.last()
    }
}

/// Concatenating one more item appends its bytes.
pub proof fn lemma_cat_take_snoc(items: Seq<Seq<u8>>, i: int)
    requires
        0 <= i < items.len(),
    ensures
        cat(items.take(i + 1)) == cat(items.take(i)) + items[i],
{
    assert(items.take(i + 1).drop_last() =~= items.take(i));
    assert(items.take(i + 1).last() == items[i]);
}

/// A prefix of the items never concatenates to more bytes than all of
/// them.
pub proof fn lemma_cat_take_len_le(items: Seq<Seq<u8>>, j: int)
    requires
        0 <= j <= items.len(),
    ensures
        cat(items.take(j)).len() <= cat(items).len(),
    decreases items.len() - j,
{
    if j < items.len() {
        lemma_cat_take_snoc(items, j);
        lemma_cat_take_len_le(items, j + 1);
    } else {
        assert(items.take(j) =~= items);
    }
}

/// Items of one fixed length concatenate to that length times their
/// count.
pub proof fn lemma_cat_fixed_len(items: Seq<Seq<u8>>, k: int)
    requires
        forall|i: int| 0 <= i < items.len() ==> (#[trigger] items[i]).len() == k,
    ensures
        cat(items).len() == k * items.len(),
    decreases items.len(),
{
    if items.len() == 0 {
        assert(k * 0 == 0) by (nonlinear_arith);
    } else {
        assert(forall|i: int|
            0 <= i < items.drop_last().len() ==> (#[trigger] items.drop_last()[i]).len() == k);
        lemma_cat_fixed_len(items.drop_last(), k);
        assert(k * (items.len() - 1) + k == k * items.len()) by (nonlinear_arith);
    }
}

/// The views of a sequence of byte vectors.
pub open spec fn vec_views(vs: Seq<Vec<u8>>) -> Seq<Seq<u8>> {
    vs.map_values(|v: Vec<u8>| v@)
}

/// The encoding of a vector of same-length items: a little-endian item
/// count followed by the items.
pub open spec fn fixvec_enc(items: Seq<Seq<u8>>) -> Seq<u8> {
    spec_u32_to_le_bytes(items.len() as u32) + cat(items)
}

/// The offset table of a vector of variable-length items: one
/// little-endian byte offset per item, measured from the start of the
/// whole encoding.
pub open spec fn dyn_offsets(items: Seq<Seq<u8>>) -> Seq<Seq<u8>> {
    Seq::new(
        items.len(),
        |i: int| spec_u32_to_le_bytes((4 + 4 * items.len() + cat(items.take(i)).len()) as u32),
    )
}

/// The byte length of a variable-length vector's encoding.
pub open spec fn dynvec_size(items: Seq<Seq<u8>>) -> int {
    4 + 4 * items.len() + cat(items).len() as int
}

/// The encoding of a vector of variable-length items: a little-endian
/// full size, the offset table, then the items. An empty vector encodes
/// as its full size alone.
pub open spec fn dynvec_enc(items: Seq<Seq<u8>>) -> Seq<u8> {
    if items.len() == 0 {
        spec_u32_to_le_bytes(4u32)
    } else {
        spec_u32_to_le_bytes(dynvec_size(items) as u32) + cat(dyn_offsets(items)) + cat(items)
    }
}

/// The vector encoding is exactly `dynvec_size` bytes long (four for an
/// empty vector).
pub proof fn lemma_dynvec_enc_len(items: Seq<Seq<u8>>)
    ensures
        dynvec_enc(items).len() == if items.len() == 0 {
            4int
        } else {
            dynvec_size(items)
        },
{
    lemma_auto_spec_u32_to_from_le_bytes();
    if items.len() > 0 {
        assert(forall|i: int|
            0 <= i < dyn_offsets(items).len() ==> (#[trigger] dyn_offsets(items)[i]).len() == 4);
        lemma_cat_fixed_len(dyn_offsets(items), 4);
    }
}

/// The per-item encodings of a cell-dep sequence.
pub open spec fn dep_encs(ds: Seq<CellDep>) -> Seq<Seq<u8>> {
    ds.map_values(|d: CellDep| cell_dep_enc(d))
}

/// The per-item encodings of a header-dep sequence: the raw hash bytes.
pub open spec fn hash_encs(hs: Seq<H256>) -> Seq<Seq<u8>> {
    hs.map_values(|h: H256| h.0@)
}

/// The per-item encodings of a cell-input sequence.
pub open spec fn input_encs(is_: Seq<CellInput>) -> Seq<Seq<u8>> {
    is_.map_values(|i: CellInput| cell_input_enc(i))
}

/// The per-item encodings of a cell-output sequence.
pub open spec fn output_encs(os: Seq<CellOutput>) -> Seq<Seq<u8>> {
    os.map_values(|o: CellOutput| cell_output_enc(o))
}

/// The per-item encodings of a byte-string sequence: each length-prefixed.
pub open spec fn byte_string_encs(bs: Seq<GraphqlBytes>) -> Seq<Seq<u8>> {
    bs.map_values(|g: GraphqlBytes| bytes_enc(g.0@))
}

/// The canonical encoding of a cell-dep vector.
pub open spec fn cell_deps_enc(ds: Seq<CellDep>) -> Seq<u8> {
    fixvec_enc(dep_encs(ds))
}

/// The canonical encoding of a header-dep vector.
pub open spec fn header_deps_enc(hs: Seq<H256>) -> Seq<u8> {
    fixvec_enc(hash_encs(hs))
}

/// The canonical encoding of a cell-input vector.
pub open spec fn inputs_enc(is_: Seq<CellInput>) -> Seq<u8> {
    fixvec_enc(input_encs(is_))
}

/// The canonical encoding of a cell-output vector.
pub open spec fn outputs_enc(os: Seq<CellOutput>) -> Seq<u8> {
    dynvec_enc(output_encs(os))
}

/// The canonical encoding of a byte-string vector.
pub open spec fn byte_strings_enc(bs: Seq<GraphqlBytes>) -> Seq<u8> {
    dynvec_enc(byte_string_encs(bs))
}

/// The transaction view: the typed form of a whole transaction record.
#[derive(Default, Clone, Debug, Hash, PartialEq, Eq)]
pub struct TransactionView {
    /// Reserved for future usage; zero in the current version.
    pub version: Uint32,
    /// The cell deps: live cells the scripts locate code in or read.
    pub cell_deps: Vec<CellDep>,
    /// The header deps: blocks whose headers the scripts may read.
    pub header_deps: Vec<H256>,
    /// The input cells.
    pub inputs: Vec<CellInput>,
    /// The output cells.
    pub outputs: Vec<CellOutput>,
    /// Output cell data, a parallel array of `outputs`: the data of
    /// output `i` is `outputs_data[i]`.
    pub outputs_data: Vec<GraphqlBytes>,
    /// Witnesses, read by the scripts to verify the transaction; not
    /// part of the hashed structural portion.
    pub witnesses: Vec<GraphqlBytes>,
    /// The transaction hash: the digest of the raw portion's canonical
    /// encoding. Derived at decode time, never recomputed from the
    /// typed form.
    pub hash: H256,
}

/// The byte length of the raw (structural) portion's canonical encoding:
/// a header of size and six offsets, the four-byte version, then the
/// five vector fields.
pub open spec fn raw_tx_size(t: TransactionView) -> int {
    32 + cell_deps_enc(t.cell_deps@).len() + header_deps_enc(t.header_deps@).len() + inputs_enc(
        t.inputs@,
    ).len() + outputs_enc(t.outputs@).len() + byte_strings_enc(t.outputs_data@).len() as int
}

/// The canonical encoding of the raw (structural) portion: full size,
/// six field offsets, then version, cell deps, header deps, inputs,
/// outputs and outputs data. Witnesses and the derived hash are not part
/// of it.
pub open spec fn raw_tx_enc(t: TransactionView) -> Seq<u8> {
    let f1 = cell_deps_enc(t.cell_deps@);
    let f2 = header_deps_enc(t.header_deps@);
    let f3 = inputs_enc(t.inputs@);
    let f4 = outputs_enc(t.outputs@);
    let f5 = byte_strings_enc(t.outputs_data@);
    spec_u32_to_le_bytes(raw_tx_size(t) as u32) + spec_u32_to_le_bytes(28u32)
        + spec_u32_to_le_bytes(32u32) + spec_u32_to_le_bytes((32 + f1.len()) as u32)
        + spec_u32_to_le_bytes((32 + f1.len() + f2.len()) as u32) + spec_u32_to_le_bytes(
        (32 + f1.len() + f2.len() + f3.len()) as u32,
    ) + spec_u32_to_le_bytes((32 + f1.len() + f2.len() + f3.len() + f4.len()) as u32)
        + spec_u32_to_le_bytes(t.version.0) + f1 + f2 + f3 + f4 + f5
}

/// The byte length of a whole transaction's canonical encoding: a header
/// of size and two offsets, the raw portion, then the witnesses.
pub open spec fn tx_size(t: TransactionView) -> int {
    12 + raw_tx_size(t) + byte_strings_enc(t.witnesses@).len()
}

/// The canonical encoding of a whole transaction: full size, two field
/// offsets, the raw portion, then the witness vector.
pub open spec fn tx_enc(t: TransactionView) -> Seq<u8> {
    spec_u32_to_le_bytes(tx_size(t) as u32) + spec_u32_to_le_bytes(12u32) + spec_u32_to_le_bytes(
        (12 + raw_tx_size(t)) as u32,
    ) + raw_tx_enc(t) + byte_strings_enc(t.witnesses@)
}

/// The raw portion's canonical encoding is exactly `raw_tx_size` bytes
/// long.
pub proof fn lemma_raw_tx_enc_len(t: TransactionView)
    ensures
        raw_tx_enc(t).len() == raw_tx_size(t),
{
    lemma_auto_spec_u32_to_from_le_bytes();
}

/// A whole transaction's canonical encoding is exactly `tx_size` bytes
/// long.
pub proof fn lemma_tx_enc_len(t: TransactionView)
    ensures
        tx_enc(t).len() == tx_size(t),
{
    lemma_auto_spec_u32_to_from_le_bytes();
    lemma_raw_tx_enc_len(t);
}

/// Whether a transaction is encodable: the parallel arrays agree in
/// length, every output and byte string is itself encodable, and the
/// encoding's sizes fit their 32-bit fields.
pub open spec fn tx_wf(t: TransactionView) -> bool {
    &&& t.outputs@.len() == t.outputs_data@.len()
    &&& (forall|i: int| 0 <= i < t.outputs@.len() ==> cell_output_wf(#[trigger] t.outputs@[i]))
    &&& (forall|i: int|
        0 <= i < t.outputs_data@.len() ==> (#[trigger] t.outputs_data@[i]).0@.len() + 4
            <= u32::MAX)
    &&& (forall|i: int|
        0 <= i < t.witnesses@.len() ==> (#[trigger] t.witnesses@[i]).0@.len() + 4 <= u32::MAX)
    &&& raw_tx_size(t) <= u32::MAX
    &&& tx_size(t) <= u32::MAX
}

/// Serializes one length-prefixed byte string.
fn bytes_to_binary(g: &GraphqlBytes) -> (r: Vec<u8>)
    requires
        g.0@.len() + 4 <= u32::MAX,
    ensures
        r@ == bytes_enc(g.0@),
        r@.len() == 4 + g.0@.len(),
{
    let mut out = u32_to_le_bytes(g.0.len() as u32);
    out.extend_from_slice(g.0.as_slice());
    proof {
        lemma_auto_spec_u32_to_from_le_bytes();
    }
    out
}

/// Builds the encoding of a vector of same-length items from the items'
/// encodings.
fn build_fixvec(encs: &Vec<Vec<u8>>) -> (r: Vec<u8>)
    requires
        encs@.len() <= u32::MAX,
    ensures
        r@ == fixvec_enc(vec_views(encs@)),
{
    let ghost items = vec_views(encs@);
    let n = encs.len();
    let mut out = u32_to_le_bytes(n as u32);
    let mut j: usize = 0;
    while j < n
        invariant
            j <= n,
            n == encs@.len(),
            items == vec_views(encs@),
            out@ == spec_u32_to_le_bytes(n as u32) + cat(items.take(j as int)),
        decreases n - j,
    {
        out.extend_from_slice(encs[j].as_slice());
        proof {
            lemma_cat_take_snoc(items, j as int);
            assert(items[j as int] == encs@[j as int]@);
        }
        j = j + 1;
    }
    proof {
        assert(items.take(n as int) =~= items);
    }
    out
}

/// Builds the encoding of a vector of variable-length items from the
/// items' encodings.
fn build_dynvec(encs: &Vec<Vec<u8>>) -> (r: Vec<u8>)
    requires
        4 + 4 * encs@.len() + cat(vec_views(encs@)).len() <= u32::MAX,
    ensures
        r@ == dynvec_enc(vec_views(encs@)),
{
    let ghost items = vec_views(encs@);
    let n = encs.len();
    if n == 0 {
        return u32_to_le_bytes(4);
    }
    let mut sum: u64 = 0;
    let mut j: usize = 0;
    while j < n
        invariant
            j <= n,
            n == encs@.len(),
            items == vec_views(encs@),
            sum == cat(items.take(j as int)).len(),
            4 + 4 * (n as int) + cat(items).len() <= u32::MAX,
        decreases n - j,
    {
        proof {
            lemma_cat_take_snoc(items, j as int);
            lemma_cat_take_len_le(items, j as int + 1);
            assert(items[j as int] == encs@[j as int]@);
        }
        sum = sum + encs[j].len() as u64;
        j = j + 1;
    }
    proof {
        assert(items.take(n as int) =~= items);
    }
    let total: u64 = 4 + 4 * (n as u64) + sum;
    let mut out = u32_to_le_bytes(total as u32);
    let ghost offs = dyn_offsets(items);
    let mut off: u64 = 4 + 4 * (n as u64);
    let mut j: usize = 0;
    while j < n
        invariant
            j <= n,
            n == encs@.len(),
            n >= 1,
            items == vec_views(encs@),
            offs == dyn_offsets(items),
            total == dynvec_size(items),
            4 + 4 * (n as int) + cat(items).len() <= u32::MAX,
            off == 4 + 4 * (n as int) + cat(items.take(j as int)).len(),
            out@ == spec_u32_to_le_bytes(dynvec_size(items) as u32) + cat(offs.take(j as int)),
        decreases n - j,
    {
        proof {
            lemma_cat_take_len_le(items, j as int);
        }
        let mut o = u32_to_le_bytes(off as u32);
        out.append(&mut o);
        proof {
            lemma_cat_take_snoc(offs, j as int);
            assert(offs[j as int] == spec_u32_to_le_bytes(
                (4 + 4 * items.len() + cat(items.take(j as int)).len()) as u32,
            ));
            lemma_cat_take_snoc(items, j as int);
            lemma_cat_take_len_le(items, j as int + 1);
            assert(items[j as int] == encs@[j as int]@);
        }
        off = off + encs[j].len() as u64;
        j = j + 1;
    }
    proof {
        assert(offs.take(n as int) =~= offs);
    }
    let mut j: usize = 0;
    while j < n
        invariant
            j <= n,
            n == encs@.len(),
            n >= 1,
            items == vec_views(encs@),
            offs == dyn_offsets(items),
            out@ == spec_u32_to_le_bytes(dynvec_size(items) as u32) + cat(offs) + cat(
                items.take(j as int),
            ),
        decreases n - j,
    {
        out.extend_from_slice(encs[j].as_slice());
        proof {
            lemma_cat_take_snoc(items, j as int);
            assert(items[j as int] == encs@[j as int]@);
        }
        j = j + 1;
    }
    proof {
        assert(items.take(n as int) =~= items);
        assert(out@ =~= dynvec_enc(items));
    }
    out
}

/// Serializes each cell dep.
fn encode_deps(ds: &Vec<CellDep>) -> (r: Vec<Vec<u8>>)
    ensures
        vec_views(r@) == dep_encs(ds@),
        r@.len() == ds@.len(),
{
    let mut out: Vec<Vec<u8>> = Vec::new();
    let mut i: usize = 0;
    while i < ds.len()
        invariant
            i <= ds@.len(),
            out@.len() == i,
            forall|j: int| 0 <= j < i ==> (#[trigger] out@[j])@ == cell_dep_enc(ds@[j]),
        decreases ds@.len() - i,
    {
        out.push(ds[i].to_binary());
        i = i + 1;
    }
    proof {
        assert(vec_views(out@) =~= dep_encs(ds@));
    }
    out
}

/// Serializes each header dep as its raw hash bytes.
fn encode_hashes(hs: &Vec<H256>) -> (r: Vec<Vec<u8>>)
    ensures
        vec_views(r@) == hash_encs(hs@),
        r@.len() == hs@.len(),
{
    let mut out: Vec<Vec<u8>> = Vec::new();
    let mut i: usize = 0;
    while i < hs.len()
        invariant
            i <= hs@.len(),
            out@.len() == i,
            forall|j: int| 0 <= j < i ==> (#[trigger] out@[j])@ == hs@[j].0@,
        decreases hs@.len() - i,
    {
        out.push(slice_to_vec(hs[i].0.as_slice()));
        i = i + 1;
    }
    proof {
        assert(vec_views(out@) =~= hash_encs(hs@));
    }
    out
}

/// Serializes each cell input.
fn encode_inputs(is_: &Vec<CellInput>) -> (r: Vec<Vec<u8>>)
    ensures
        vec_views(r@) == input_encs(is_@),
        r@.len() == is_@.len(),
{
    let mut out: Vec<Vec<u8>> = Vec::new();
    let mut i: usize = 0;
    while i < is_.len()
        invariant
            i <= is_@.len(),
            out@.len() == i,
            forall|j: int| 0 <= j < i ==> (#[trigger] out@[j])@ == cell_input_enc(is_@[j]),
        decreases is_@.len() - i,
    {
        out.push(is_[i].to_binary());
        i = i + 1;
    }
    proof {
        assert(vec_views(out@) =~= input_encs(is_@));
    }
    out
}

/// Serializes each cell output.
fn encode_outputs(os: &Vec<CellOutput>) -> (r: Vec<Vec<u8>>)
    requires
        forall|i: int| 0 <= i < os@.len() ==> cell_output_wf(#[trigger] os@[i]),
    ensures
        vec_views(r@) == output_encs(os@),
        r@.len() == os@.len(),
{
    let mut out: Vec<Vec<u8>> = Vec::new();
    let mut i: usize = 0;
    while i < os.len()
        invariant
            i <= os@.len(),
            out@.len() == i,
            forall|j: int| 0 <= j < os@.len() ==> cell_output_wf(#[trigger] os@[j]),
            forall|j: int| 0 <= j < i ==> (#[trigger] out@[j])@ == cell_output_enc(os@[j]),
        decreases os@.len() - i,
    {
        out.push(os[i].to_binary());
        i = i + 1;
    }
    proof {
        assert(vec_views(out@) =~= output_encs(os@));
    }
    out
}

/// Serializes each byte string, length-prefixed.
fn encode_byte_strings(bs: &Vec<GraphqlBytes>) -> (r: Vec<Vec<u8>>)
    requires
        forall|i: int| 0 <= i < bs@.len() ==> (#[trigger] bs@[i]).0@.len() + 4 <= u32::MAX,
    ensures
        vec_views(r@) == byte_string_encs(bs@),
        r@.len() == bs@.len(),
{
    let mut out: Vec<Vec<u8>> = Vec::new();
    let mut i: usize = 0;
    while i < bs.len()
        invariant
            i <= bs@.len(),
            out@.len() == i,
            forall|j: int| 0 <= j < bs@.len() ==> (#[trigger] bs@[j]).0@.len() + 4 <= u32::MAX,
            forall|j: int| 0 <= j < i ==> (#[trigger] out@[j])@ == bytes_enc(bs@[j].0@),
        decreases bs@.len() - i,
    {
        out.push(bytes_to_binary(&bs[i]));
        i = i + 1;
    }
    proof {
        assert(vec_views(out@) =~= byte_string_encs(bs@));
    }
    out
}

/// Items lying back to back in a byte sequence, each of one fixed
/// length, concatenate to the covered range.
pub proof fn lemma_cat_of_chunks(items: Seq<Seq<u8>>, s: Seq<u8>, base: int, k: int)
    requires
        k >= 1,
        0 <= base,
        base + k * items.len() <= s.len(),
        forall|j: int|
            0 <= j < items.len() ==> #[trigger] items[j] == s.subrange(
                base + k * j,
                base + k * j + k,
            ),
    ensures
        cat(items) == s.subrange(base, base + k * items.len()),
    decreases items.len(),
{
    if items.len() == 0 {
        assert(k * 0 == 0) by (nonlinear_arith);
        assert(s.subrange(base, base) =~= Seq::<u8>::empty());
    } else {
        let n = items.len() as int;
        assert(k * (n - 1) + k == k * n) by (nonlinear_arith);
        assert(k * (n - 1) >= 0) by (nonlinear_arith)
            requires
                k >= 1 && n >= 1,
        ;
        assert(forall|j: int|
            0 <= j < items.drop_last().len() ==> #[trigger] items.drop_last()[j] == s.subrange(
                base + k * j,
                base + k * j + k,
            ));
        lemma_cat_of_chunks(items.drop_last(), s, base, k);
        assert(items.last() == s.subrange(base + k * (n - 1), base + k * (n - 1) + k));
        assert(s.subrange(base, base + k * (n - 1)) + s.subrange(base + k * (n - 1), base + k * n)
            =~= s.subrange(base, base + k * n));
    }
}

/// Items of one fixed length whose concatenation covers a range each
/// stand at their own chunk of it.
pub proof fn lemma_cat_chunk_at(items: Seq<Seq<u8>>, s: Seq<u8>, base: int, k: int, j: int)
    requires
        k >= 1,
        0 <= base,
        base + k * items.len() <= s.len(),
        forall|i: int| 0 <= i < items.len() ==> (#[trigger] items[i]).len() == k,
        cat(items) == s.subrange(base, base + k * items.len()),
        0 <= j < items.len(),
    ensures
        items[j] == s.subrange(base + k * j, base + k * j + k),
    decreases items.len(),
{
    let n = items.len() as int;
    assert(k * (n - 1) + k == k * n) by (nonlinear_arith);
    assert(k * (n - 1) >= 0) by (nonlinear_arith)
        requires
            k >= 1 && n >= 1,
    ;
    assert(forall|i: int|
        0 <= i < items.drop_last().len() ==> (#[trigger] items.drop_last()[i]).len() == k);
    lemma_cat_fixed_len(items, k);
    lemma_cat_fixed_len(items.drop_last(), k);
    let cd = cat(items.drop_last());
    let lst = items.last();
    assert(cat(items) == cd + lst);
    assert(cd.len() == k * (n - 1));
    assert(cd =~= s.subrange(base, base + k * (n - 1)));
    assert forall|i: int| 0 <= i < lst.len() implies lst[i] == s[base + k * (n - 1) + i] by {
        assert((cd + lst)[cd.len() + i] == lst[i]);
        assert(cat(items)[cd.len() + i] == s.subrange(base, base + k * n)[cd.len() + i]);
    }
    assert(lst =~= s.subrange(base + k * (n - 1), base + k * n));
    if j < n - 1 {
        lemma_cat_chunk_at(items.drop_last(), s, base, k, j);
    }
}

/// Items whose concatenation covers a range each stand between their
/// cumulative offsets in it.
pub proof fn lemma_cat_item_at(items: Seq<Seq<u8>>, s: Seq<u8>, base: int, j: int)
    requires
        0 <= base,
        base + cat(items).len() <= s.len(),
        cat(items) == s.subrange(base, base + cat(items).len()),
        0 <= j < items.len(),
    ensures
        cat(items.take(j)).len() + items[j].len() == cat(items.take(j + 1)).len(),
        cat(items.take(j + 1)).len() <= cat(items).len(),
        items[j] == s.subrange(
            base + cat(items.take(j)).len(),
            base + cat(items.take(j + 1)).len(),
        ),
    decreases items.len(),
{
    let n = items.len() as int;
    lemma_cat_take_snoc(items, j);
    lemma_cat_take_len_le(items, j + 1);
    let cd = cat(items.drop_last());
    let lst = items.last();
    assert(cat(items) == cd + lst);
    assert(cd =~= s.subrange(base, base + cd.len()));
    assert forall|i: int| 0 <= i < lst.len() implies lst[i] == s[base + cd.len() + i] by {
        assert((cd + lst)[cd.len() + i] == lst[i]);
        assert(cat(items)[cd.len() + i] == s.subrange(base, base + cat(items).len())[cd.len()
            + i]);
    }
    assert(lst =~= s.subrange(base + cd.len(), base + cat(items).len()));
    if j < n - 1 {
        lemma_cat_item_at(items.drop_last(), s, base, j);
        assert(items.drop_last().take(j) =~= items.take(j));
        assert(items.drop_last().take(j + 1) =~= items.take(j + 1));
    } else {
        assert(items.take(j) =~= items.drop_last());
        assert(items.take(j + 1) =~= items);
    }
}

/// How a nonempty variable-length vector's encoding splits into its
/// size, its offset table and its items.
pub proof fn lemma_dynvec_enc_parts(items: Seq<Seq<u8>>, b: Seq<u8>)
    requires
        b == dynvec_enc(items),
        items.len() >= 1,
        dynvec_size(items) <= u32::MAX,
    ensures
        b.len() == dynvec_size(items),
        b.subrange(0, 4) == spec_u32_to_le_bytes(dynvec_size(items) as u32),
        forall|j: int|
            0 <= j < items.len() ==> b.subrange(4 + 4 * j, 8 + 4 * j) == spec_u32_to_le_bytes(
                (4 + 4 * items.len() + cat(items.take(j)).len()) as u32,
            ),
        cat(items) == b.subrange(4 + 4 * items.len() as int, b.len() as int),
        forall|j: int|
            0 <= j < items.len() ==> #[trigger] items[j] == b.subrange(
                4 + 4 * items.len() as int + cat(items.take(j)).len() as int,
                4 + 4 * items.len() as int + cat(items.take(j + 1)).len() as int,
            ),
    decreases items.len(),
{
    lemma_auto_spec_u32_to_from_le_bytes();
    let n = items.len() as int;
    lemma_dynvec_enc_len(items);
    assert(forall|i: int|
        0 <= i < dyn_offsets(items).len() ==> (#[trigger] dyn_offsets(items)[i]).len() == 4);
    lemma_cat_fixed_len(dyn_offsets(items), 4);
    assert(b.subrange(0, 4) =~= spec_u32_to_le_bytes(dynvec_size(items) as u32));
    assert(cat(dyn_offsets(items)) =~= b.subrange(4, 4 + 4 * n));
    assert(cat(items) =~= b.subrange(4 + 4 * n, b.len() as int));
    assert forall|j: int| 0 <= j < n implies b.subrange(4 + 4 * j, 8 + 4 * j)
        == spec_u32_to_le_bytes((4 + 4 * n + cat(items.take(j)).len()) as u32) by {
        lemma_cat_chunk_at(dyn_offsets(items), b, 4, 4, j);
    }
    assert forall|j: int| 0 <= j < n implies #[trigger] items[j] == b.subrange(
        4 + 4 * n + cat(items.take(j)).len(),
        4 + 4 * n + cat(items.take(j + 1)).len(),
    ) by {
        lemma_cat_item_at(items, b, 4 + 4 * n, j);
    }
}

/// How a fixed-item vector encoding splits into its count and its
/// item chunks, given the item width.
proof fn lemma_fixvec_enc_parts(items: Seq<Seq<u8>>, b: Seq<u8>, k: int)
    requires
        b == fixvec_enc(items),
        k >= 1,
        forall|i: int| 0 <= i < items.len() ==> (#[trigger] items[i]).len() == k,
    ensures
        b.len() == 4 + k * items.len(),
        b.subrange(0, 4) == spec_u32_to_le_bytes(items.len() as u32),
        forall|j: int|
            0 <= j < items.len() ==> #[trigger] items[j] == b.subrange(4 + k * j, 4 + k * j + k),
{
    lemma_auto_spec_u32_to_from_le_bytes();
    lemma_cat_fixed_len(items, k);
    assert(b.subrange(0, 4) =~= spec_u32_to_le_bytes(items.len() as u32));
    assert(cat(items) =~= b.subrange(4, 4 + k * items.len()));
    assert forall|j: int| 0 <= j < items.len() implies #[trigger] items[j] == b.subrange(
        4 + k * j,
        4 + k * j + k,
    ) by {
        lemma_cat_chunk_at(items, b, 4, k, j);
    }
}

/// Parses a cell-dep vector; the accepted input is byte-identical to
/// the canonical encoding of the result.
fn parse_deps(b: &[u8]) -> (r: Option<Vec<CellDep>>)
    ensures
        match r {
            Some(ds) => cell_deps_enc(ds@) == b@ && ds@.len() <= u32::MAX,
            None => forall|ds: Seq<CellDep>|
                (#[trigger] cell_deps_enc(ds)).len() <= u32::MAX ==> cell_deps_enc(ds) != b@,
        },
{
    proof {
        lemma_auto_spec_u32_to_from_le_bytes();
    }
    if b.len() < 4 {
        proof {
            assert forall|ds: Seq<CellDep>|
                (#[trigger] cell_deps_enc(ds)).len() <= u32::MAX implies cell_deps_enc(ds)
                != b@ by {
                lemma_auto_spec_u32_to_from_le_bytes();
            }
        }
        return None;
    }
    let cnt = u32_from_le_bytes(slice_subrange(b, 0, 4));
    if b.len() as u64 != 4 + 37 * (cnt as u64) {
        proof {
            assert forall|ds: Seq<CellDep>|
                (#[trigger] cell_deps_enc(ds)).len() <= u32::MAX implies cell_deps_enc(ds)
                != b@ by {
                if cell_deps_enc(ds) == b@ {
                    lemma_auto_spec_u32_to_from_le_bytes();
                    assert(forall|i2: int|
                        0 <= i2 < dep_encs(ds).len() ==> (#[trigger] dep_encs(ds)[i2]).len()
                            == 37);
                    lemma_fixvec_enc_parts(dep_encs(ds), b@, 37);
                    assert(cnt == ds.len() as u32);
                    assert(false);
                }
            }
        }
        return None;
    }
    let n = cnt as usize;
    let mut ds: Vec<CellDep> = Vec::new();
    let mut i: usize = 0;
    while i < n
        invariant
            i <= n,
            ds@.len() == i,
            b@.len() == 4 + 37 * (n as int),
            b@.len() <= usize::MAX,
            forall|j: int|
                0 <= j < i ==> cell_dep_enc(#[trigger] ds@[j]) == b@.subrange(
                    4 + 37 * j,
                    4 + 37 * j + 37,
                ),
        decreases n - i,
    {
        let chunk = slice_subrange(b, 4 + 37 * i, 4 + 37 * i + 37);
        let d = match CellDep::from_binary(chunk) {
            Ok(d) => d,
            Err(_) => {
                proof {
                    assert forall|ds2: Seq<CellDep>|
                        (#[trigger] cell_deps_enc(ds2)).len() <= u32::MAX implies cell_deps_enc(
                        ds2,
                    ) != b@ by {
                        if cell_deps_enc(ds2) == b@ {
                            lemma_auto_spec_u32_to_from_le_bytes();
                            assert(forall|i2: int|
                                0 <= i2 < dep_encs(ds2).len() ==> (#[trigger] dep_encs(
                                    ds2,
                                )[i2]).len() == 37);
                            lemma_fixvec_enc_parts(dep_encs(ds2), b@, 37);
                            assert(ds2.len() == n);
                            assert(dep_encs(ds2)[i as int] == b@.subrange(
                                4 + 37 * (i as int),
                                4 + 37 * (i as int) + 37,
                            ));
                            assert(dep_encs(ds2)[i as int] == cell_dep_enc(ds2[i as int]));
                            assert(chunk@ == cell_dep_enc(ds2[i as int]));
                            assert(cell_dep_enc(ds2[i as int])[36] == dep_type_tag(
                                ds2[i as int].dep_type,
                            ));
                            assert(dep_type_from_tag(chunk@[36]) is Some);
                            assert(false);
                        }
                    }
                }
                return None;
            },
        };
        ds.push(d);
        i = i + 1;
    }
    proof {
        lemma_cat_of_chunks(dep_encs(ds@), b@, 4, 37);
        assert(cell_deps_enc(ds@) =~= b@);
    }
    Some(ds)
}

/// Parses a header-dep vector; the accepted input is byte-identical to
/// the canonical encoding of the result.
fn parse_hashes(b: &[u8]) -> (r: Option<Vec<H256>>)
    ensures
        match r {
            Some(hs) => header_deps_enc(hs@) == b@ && hs@.len() <= u32::MAX,
            None => forall|hs: Seq<H256>|
                (#[trigger] header_deps_enc(hs)).len() <= u32::MAX ==> header_deps_enc(hs) != b@,
        },
{
    proof {
        lemma_auto_spec_u32_to_from_le_bytes();
    }
    if b.len() < 4 {
        proof {
            assert forall|hs: Seq<H256>|
                (#[trigger] header_deps_enc(hs)).len() <= u32::MAX implies header_deps_enc(hs)
                != b@ by {
                lemma_auto_spec_u32_to_from_le_bytes();
            }
        }
        return None;
    }
    let cnt = u32_from_le_bytes(slice_subrange(b, 0, 4));
    if b.len() as u64 != 4 + 32 * (cnt as u64) {
        proof {
            assert forall|hs: Seq<H256>|
                (#[trigger] header_deps_enc(hs)).len() <= u32::MAX implies header_deps_enc(hs)
                != b@ by {
                if header_deps_enc(hs) == b@ {
                    lemma_auto_spec_u32_to_from_le_bytes();
                    assert(forall|i2: int|
                        0 <= i2 < hash_encs(hs).len() ==> (#[trigger] hash_encs(hs)[i2]).len()
                            == 32);
                    lemma_fixvec_enc_parts(hash_encs(hs), b@, 32);
                    assert(cnt == hs.len() as u32);
                    assert(false);
                }
            }
        }
        return None;
    }
    let n = cnt as usize;
    let mut hs: Vec<H256> = Vec::new();
    let mut i: usize = 0;
    while i < n
        invariant
            i <= n,
            hs@.len() == i,
            b@.len() == 4 + 32 * (n as int),
            b@.len() <= usize::MAX,
            forall|j: int|
                0 <= j < i ==> (#[trigger] hs@[j]).0@ == b@.subrange(4 + 32 * j, 4 + 32 * j + 32),
        decreases n - i,
    {
        let h = read_hash(b, 4 + 32 * i);
        hs.push(H256(h));
        i = i + 1;
    }
    proof {
        lemma_cat_of_chunks(hash_encs(hs@), b@, 4, 32);
        assert(header_deps_enc(hs@) =~= b@);
    }
    Some(hs)
}

/// Parses a cell-input vector; the accepted input is byte-identical to
/// the canonical encoding of the result.
fn parse_inputs(b: &[u8]) -> (r: Option<Vec<CellInput>>)
    ensures
        match r {
            Some(is_) => inputs_enc(is_@) == b@ && is_@.len() <= u32::MAX,
            None => forall|is_: Seq<CellInput>|
                (#[trigger] inputs_enc(is_)).len() <= u32::MAX ==> inputs_enc(is_) != b@,
        },
{
    proof {
        lemma_auto_spec_u32_to_from_le_bytes();
    }
    if b.len() < 4 {
        proof {
            assert forall|is_: Seq<CellInput>|
                (#[trigger] inputs_enc(is_)).len() <= u32::MAX implies inputs_enc(is_) != b@ by {
                lemma_auto_spec_u32_to_from_le_bytes();
            }
        }
        return None;
    }
    let cnt = u32_from_le_bytes(slice_subrange(b, 0, 4));
    if b.len() as u64 != 4 + 44 * (cnt as u64) {
        proof {
            assert forall|is_: Seq<CellInput>|
                (#[trigger] inputs_enc(is_)).len() <= u32::MAX implies inputs_enc(is_) != b@ by {
                if inputs_enc(is_) == b@ {
                    lemma_auto_spec_u32_to_from_le_bytes();
                    lemma_auto_spec_u64_to_from_le_bytes();
                    assert(forall|i2: int|
                        0 <= i2 < input_encs(is_).len() ==> (#[trigger] input_encs(
                            is_,
                        )[i2]).len() == 44);
                    lemma_fixvec_enc_parts(input_encs(is_), b@, 44);
                    assert(cnt == is_.len() as u32);
                    assert(false);
                }
            }
        }
        return None;
    }
    let n = cnt as usize;
    let mut is_: Vec<CellInput> = Vec::new();
    let mut i: usize = 0;
    while i < n
        invariant
            i <= n,
            is_@.len() == i,
            b@.len() == 4 + 44 * (n as int),
            b@.len() <= usize::MAX,
            forall|j: int|
                0 <= j < i ==> cell_input_enc(#[trigger] is_@[j]) == b@.subrange(
                    4 + 44 * j,
                    4 + 44 * j + 44,
                ),
        decreases n - i,
    {
        let chunk = slice_subrange(b, 4 + 44 * i, 4 + 44 * i + 44);
        let d = match CellInput::from_binary(chunk) {
            Ok(d) => d,
            Err(_) => {
                proof {
                    assert(chunk@.len() == 44);
                    assert(false);
                }
                return None;
            },
        };
        is_.push(d);
        i = i + 1;
    }
    proof {
        lemma_cat_of_chunks(input_encs(is_@), b@, 4, 44);
        assert(inputs_enc(is_@) =~= b@);
    }
    Some(is_)
}

/// Where the parser stands in a canonical vector encoding: if the
/// bytes are the encoding of `items` and the offsets read so far match
/// the parsed prefix, the next chunk is exactly the next item.
#[verifier::rlimit(100)]
#[verifier::spinoff_prover]
proof fn lemma_dynvec_position(
    items: Seq<Seq<u8>>,
    parsed: Seq<Seq<u8>>,
    b: Seq<u8>,
    n: int,
    i: int,
    prev: int,
)
    requires
        dynvec_enc(items) == b,
        items.len() == n,
        dynvec_size(items) <= u32::MAX,
        1 <= n,
        0 <= i < n,
        parsed.len() == i,
        prev == 4 + 4 * n + cat(parsed).len(),
        b.subrange(4 + 4 * i, 8 + 4 * i) == spec_u32_to_le_bytes(
            (4 + 4 * n + cat(parsed.take(i)).len()) as u32,
        ),
        prev <= b.len(),
        b.len() <= u32::MAX,
    ensures
        b.len() == dynvec_size(items),
        prev == 4 + 4 * n + cat(items.take(i)).len(),
        prev + items[i].len() == 4 + 4 * n + cat(items.take(i + 1)).len(),
        4 + 4 * n + cat(items.take(i + 1)).len() <= b.len(),
        items[i] == b.subrange(prev, prev + items[i].len() as int),
        i + 1 < n ==> b.subrange(4 + 4 * (i + 1), 8 + 4 * (i + 1)) == spec_u32_to_le_bytes(
            (4 + 4 * n + cat(items.take(i + 1)).len()) as u32,
        ),
        i + 1 == n ==> 4 + 4 * n + cat(items.take(i + 1)).len() == b.len(),
{
    lemma_auto_spec_u32_to_from_le_bytes();
    lemma_dynvec_enc_len(items);
    lemma_dynvec_enc_parts(items, b);
    lemma_cat_take_len_le(items, i);
    lemma_cat_take_len_le(items, i + 1);
    lemma_cat_take_snoc(items, i);
    assert(parsed.take(i) =~= parsed);
    assert(b.subrange(4 + 4 * i, 8 + 4 * i) == spec_u32_to_le_bytes(
        (4 + 4 * n + cat(items.take(i)).len()) as u32,
    ));
    let a1 = 4 + 4 * n + cat(parsed).len();
    let a2 = 4 + 4 * n + cat(items.take(i)).len();
    assert(a1 <= u32::MAX);
    assert(a2 <= u32::MAX);
    assert(spec_u32_to_le_bytes(a1 as u32) == spec_u32_to_le_bytes(a2 as u32));
    assert(spec_u32_to_le_bytes(a1 as u32).len() == 4);
    assert(spec_u32_to_le_bytes(a2 as u32).len() == 4);
    assert(spec_u32_from_le_bytes(spec_u32_to_le_bytes(a1 as u32)) == a1 as u32);
    assert(spec_u32_from_le_bytes(spec_u32_to_le_bytes(a2 as u32)) == a2 as u32);
    assert(a1 == a2);
    assert(prev == 4 + 4 * n + cat(items.take(i)).len());
    if i + 1 == n {
        assert(items.take(i + 1) =~= items);
    }
}

/// A cell-output vector the format can represent: its encoding fits the
/// 32-bit size field and every output is itself encodable.
pub open spec fn outputs_ok(os: Seq<CellOutput>) -> bool {
    outputs_enc(os).len() <= u32::MAX && (forall|j: int|
        0 <= j < os.len() ==> cell_output_wf(#[trigger] os[j]))
}

/// A byte-string vector the format can represent: its encoding fits the
/// 32-bit size field and every item fits its length prefix.
pub open spec fn byte_strings_ok(bs: Seq<GraphqlBytes>) -> bool {
    byte_strings_enc(bs).len() <= u32::MAX && (forall|j: int|
        0 <= j < bs.len() ==> (#[trigger] bs[j]).0@.len() + 4 <= u32::MAX)
}

/// The item pass of the cell-output vector parser: reads the offset
/// table and the items that follow a header of `n` entries.
#[verifier::rlimit(100)]
fn parse_outputs_items(b: &[u8], n: usize) -> (r: Option<Vec<CellOutput>>)
    requires
        1 <= n,
        8 <= b@.len() <= u32::MAX,
        4 + 4 * (n as int) <= b@.len(),
        b@.subrange(4, 8) == spec_u32_to_le_bytes((4 + 4 * (n as int)) as u32),
    ensures
        match r {
            Some(os) => {
                &&& os@.len() == n
                &&& cat(output_encs(os@)) == b@.subrange(4 + 4 * (n as int), b@.len() as int)
                &&& 4 + 4 * (n as int) + cat(output_encs(os@)).len() == b@.len()
                &&& (forall|j: int| 0 <= j < os@.len() ==> cell_output_wf(#[trigger] os@[j]))
                &&& (forall|j: int|
                    0 <= j < n ==> b@.subrange(4 + 4 * j, 8 + 4 * j) == spec_u32_to_le_bytes(
                        (4 + 4 * (n as int) + cat(output_encs(os@).take(j)).len()) as u32,
                    ))
            },
            None => forall|os: Seq<CellOutput>|
                os.len() == n && outputs_ok(os) ==> #[trigger] outputs_enc(os) != b@,
        },
{
    let mut os: Vec<CellOutput> = Vec::new();
    let mut prev: usize = 4 + 4 * n;
    let mut i: usize = 0;
    proof {
        assert(output_encs(os@).take(0) =~= Seq::<Seq<u8>>::empty());
    }
    while i < n
        invariant
            i <= n,
            1 <= n,
            os@.len() == i,
            8 <= b@.len() <= u32::MAX,
            4 + 4 * (n as int) <= b@.len(),
            prev as int == 4 + 4 * (n as int) + cat(output_encs(os@)).len(),
            prev as int <= b@.len(),
            i == n ==> prev as int == b@.len(),
            cat(output_encs(os@)) == b@.subrange(4 + 4 * (n as int), prev as int),
            forall|j: int| 0 <= j < i ==> cell_output_wf(#[trigger] os@[j]),
            forall|j: int|
                0 <= j <= i && j < n ==> b@.subrange(4 + 4 * j, 8 + 4 * j)
                    == spec_u32_to_le_bytes(
                    (4 + 4 * (n as int) + cat(output_encs(os@).take(j)).len()) as u32,
                ),
        decreases n - i,
    {
        proof {
            lemma_auto_spec_u32_to_from_le_bytes();
        }
        let end: usize;
        if i + 1 < n {
            let next = u32_from_le_bytes(slice_subrange(b, 8 + 4 * i, 12 + 4 * i));
            if !(prev as u64 <= next as u64 && next as u64 <= b.len() as u64) {
                proof {
                    assert forall|os2: Seq<CellOutput>|
                        os2.len() == n && outputs_ok(os2) implies #[trigger] outputs_enc(os2)
                        != b@ by {
                        if outputs_enc(os2) == b@ {
                            lemma_dynvec_enc_len(output_encs(os2));
                            lemma_dynvec_position(
                                output_encs(os2),
                                output_encs(os@),
                                b@,
                                n as int,
                                i as int,
                                prev as int,
                            );
                            let off1 = 4 + 4 * (n as int) + cat(
                                output_encs(os2).take(i as int + 1),
                            ).len();
                            assert(b@.subrange(4 + 4 * (i as int + 1), 8 + 4 * (i as int + 1))
                                == b@.subrange(8 + 4 * (i as int), 12 + 4 * (i as int)));
                            assert(off1 <= u32::MAX);
                            assert(spec_u32_from_le_bytes(spec_u32_to_le_bytes(off1 as u32))
                                == off1 as u32);
                            assert(next as int == off1);
                            assert(false);
                        }
                    }
                }
                return None;
            }
            end = next as usize;
        } else {
            end = b.len();
        }
        let chunk = slice_subrange(b, prev, end);
        let item = match CellOutput::from_binary(chunk) {
            Ok(o) => o,
            Err(_) => {
                proof {
                    assert forall|os2: Seq<CellOutput>|
                        os2.len() == n && outputs_ok(os2) implies #[trigger] outputs_enc(os2)
                        != b@ by {
                        if outputs_enc(os2) == b@ {
                            lemma_dynvec_enc_len(output_encs(os2));
                            lemma_dynvec_position(
                                output_encs(os2),
                                output_encs(os@),
                                b@,
                                n as int,
                                i as int,
                                prev as int,
                            );
                            if i as int + 1 < n as int {
                                assert(spec_u32_to_le_bytes(end as u32) == b@.subrange(
                                    8 + 4 * (i as int),
                                    12 + 4 * (i as int),
                                ));
                            }
                            assert(end as int == 4 + 4 * (n as int) + cat(
                                output_encs(os2).take(i as int + 1),
                            ).len());
                            assert(chunk@ == cell_output_enc(os2[i as int]));
                            assert(cell_output_wf(os2[i as int]));
                            assert(false);
                        }
                    }
                }
                return None;
            },
        };
        let ghost old_os = os@;
        os.push(item);
        proof {
            assert(output_encs(os@) =~= output_encs(old_os).push(cell_output_enc(item)));
            assert(output_encs(os@).drop_last() =~= output_encs(old_os));
            assert(cat(output_encs(os@)) == cat(output_encs(old_os)) + cell_output_enc(item));
            assert(cat(output_encs(os@)) =~= b@.subrange(4 + 4 * (n as int), end as int));
            assert(forall|j: int|
                0 <= j <= i ==> output_encs(os@).take(j) =~= output_encs(old_os).take(j));
            assert(output_encs(os@).take(i + 1) =~= output_encs(os@));
            if i as int + 1 < n as int {
                assert(spec_u32_to_le_bytes(end as u32) == b@.subrange(
                    8 + 4 * (i as int),
                    12 + 4 * (i as int),
                ));
                assert(end as int == 4 + 4 * (n as int) + cat(
                    output_encs(os@).take(i as int + 1),
                ).len());
                assert(b@.subrange(4 + 4 * (i as int + 1), 8 + 4 * (i as int + 1))
                    == spec_u32_to_le_bytes(
                    (4 + 4 * (n as int) + cat(output_encs(os@).take(i as int + 1)).len()) as u32,
                ));
            }
            assert forall|j: int|
                0 <= j <= i as int + 1 && j < n as int implies b@.subrange(4 + 4 * j, 8 + 4 * j)
                == spec_u32_to_le_bytes(
                (4 + 4 * (n as int) + cat(output_encs(os@).take(j)).len()) as u32,
            ) by {
                if j <= i as int {
                    assert(output_encs(os@).take(j) =~= output_encs(old_os).take(j));
                }
            }
        }
        prev = end;
        i = i + 1;
    }
    Some(os)
}

/// The size and first-offset bytes of a nonempty vector encoding.
proof fn lemma_dynvec_header(items: Seq<Seq<u8>>, b: Seq<u8>)
    requires
        dynvec_enc(items) == b,
        dynvec_size(items) <= u32::MAX,
        items.len() >= 1,
    ensures
        b.len() == dynvec_size(items),
        b.len() >= 8,
        b.subrange(0, 4) == spec_u32_to_le_bytes(dynvec_size(items) as u32),
        b.subrange(4, 8) == spec_u32_to_le_bytes((4 + 4 * items.len()) as u32),
        4 + 4 * items.len() <= b.len(),
{
    lemma_auto_spec_u32_to_from_le_bytes();
    lemma_dynvec_enc_len(items);
    lemma_dynvec_enc_parts(items, b);
    assert(items.take(0) =~= Seq::<Seq<u8>>::empty());
    assert(b.subrange(4, 8) == spec_u32_to_le_bytes((4 + 4 * items.len() + cat(
        items.take(0),
    ).len()) as u32));
}

/// Parses a cell-output vector; the accepted input is byte-identical to
/// the canonical encoding of the result.
#[verifier::rlimit(100)]
fn parse_outputs(b: &[u8]) -> (r: Option<Vec<CellOutput>>)
    ensures
        match r {
            Some(os) => outputs_enc(os@) == b@ && os@.len() <= u32::MAX && (forall|j: int|
                0 <= j < os@.len() ==> cell_output_wf(#[trigger] os@[j])),
            None => forall|os: Seq<CellOutput>|
                outputs_ok(os) ==> #[trigger] outputs_enc(os) != b@,
        },
{
    proof {
        lemma_auto_spec_u32_to_from_le_bytes();
    }
    if b.len() < 4 {
        proof {
            assert forall|os2: Seq<CellOutput>| outputs_ok(os2) implies #[trigger] outputs_enc(
                os2,
            ) != b@ by {
                if outputs_enc(os2) == b@ {
                    lemma_dynvec_enc_len(output_encs(os2));
                    assert(false);
                }
            }
        }
        return None;
    }
    let total = u32_from_le_bytes(slice_subrange(b, 0, 4));
    if total as u64 != b.len() as u64 {
        proof {
            assert forall|os2: Seq<CellOutput>| outputs_ok(os2) implies #[trigger] outputs_enc(
                os2,
            ) != b@ by {
                if outputs_enc(os2) == b@ {
                    lemma_dynvec_enc_len(output_encs(os2));
                    if os2.len() == 0 {
                        assert(b@ =~= b@.subrange(0, 4));
                        assert(spec_u32_to_le_bytes(4u32).len() == 4);
                        assert(spec_u32_from_le_bytes(spec_u32_to_le_bytes(4u32)) == 4u32);
                        assert(total == 4);
                    } else {
                        lemma_dynvec_header(output_encs(os2), b@);
                        let sz = dynvec_size(output_encs(os2));
                        assert(spec_u32_to_le_bytes(sz as u32).len() == 4);
                        assert(spec_u32_from_le_bytes(spec_u32_to_le_bytes(sz as u32)) == sz
                            as u32);
                        assert(total == sz as u32);
                    }
                    assert(false);
                }
            }
        }
        return None;
    }
    if b.len() == 4 {
        let os: Vec<CellOutput> = Vec::new();
        proof {
            assert(output_encs(os@) =~= Seq::<Seq<u8>>::empty());
            assert(b@ =~= b@.subrange(0, 4));
            assert(outputs_enc(os@) == b@);
        }
        return Some(os);
    }
    if b.len() < 8 {
        proof {
            assert forall|os2: Seq<CellOutput>| outputs_ok(os2) implies #[trigger] outputs_enc(
                os2,
            ) != b@ by {
                if outputs_enc(os2) == b@ {
                    lemma_dynvec_enc_len(output_encs(os2));
                    assert(false);
                }
            }
        }
        return None;
    }
    let o0 = u32_from_le_bytes(slice_subrange(b, 4, 8));
    if !(o0 >= 8 && o0 % 4 == 0 && o0 as u64 <= b.len() as u64) {
        proof {
            assert forall|os2: Seq<CellOutput>| outputs_ok(os2) implies #[trigger] outputs_enc(
                os2,
            ) != b@ by {
                if outputs_enc(os2) == b@ {
                    lemma_dynvec_enc_len(output_encs(os2));
                    lemma_dynvec_header(output_encs(os2), b@);
                    let m = output_encs(os2).len();
                    assert(spec_u32_to_le_bytes((4 + 4 * m) as u32).len() == 4);
                    assert(spec_u32_from_le_bytes(spec_u32_to_le_bytes((4 + 4 * m) as u32)) == (4
                        + 4 * m) as u32);
                    assert(o0 as int == 4 + 4 * m);
                    assert((4 + 4 * m) % 4 == 0) by (nonlinear_arith);
                    assert(false);
                }
            }
        }
        return None;
    }
    let n: usize = ((o0 - 4) / 4) as usize;
    proof {
        assert(4 + 4 * (n as int) == o0 as int);
    }
    let os = match parse_outputs_items(b, n) {
        Some(v) => v,
        None => {
            proof {
                assert forall|os2: Seq<CellOutput>| outputs_ok(os2) implies #[trigger] outputs_enc(
                    os2,
                ) != b@ by {
                    if outputs_enc(os2) == b@ {
                        lemma_dynvec_enc_len(output_encs(os2));
                        lemma_dynvec_header(output_encs(os2), b@);
                        let m = output_encs(os2).len();
                        assert(spec_u32_to_le_bytes((4 + 4 * m) as u32).len() == 4);
                        assert(spec_u32_from_le_bytes(spec_u32_to_le_bytes((4 + 4 * m) as u32))
                            == (4 + 4 * m) as u32);
                        assert(o0 as int == 4 + 4 * m);
                        assert(os2.len() == n);
                        assert(false);
                    }
                }
            }
            return None;
        },
    };
    proof {
        let items = output_encs(os@);
        assert(forall|j: int|
            0 <= j < dyn_offsets(items).len() ==> #[trigger] dyn_offsets(items)[j] == b@.subrange(
                4 + 4 * j,
                4 + 4 * j + 4,
            ));
        lemma_cat_of_chunks(dyn_offsets(items), b@, 4, 4);
        assert(b@ =~= b@.subrange(0, 4) + b@.subrange(4, 4 + 4 * (n as int)) + b@.subrange(
            4 + 4 * (n as int),
            b@.len() as int,
        ));
        assert(outputs_enc(os@) =~= b@);
    }
    Some(os)
}

/// The item pass of the byte-string vector parser: reads the offset
/// table and the length-prefixed items that follow a header of `n`
/// entries.
#[verifier::rlimit(100)]
fn parse_byte_strings_items(b: &[u8], n: usize) -> (r: Option<Vec<GraphqlBytes>>)
    requires
        1 <= n,
        8 <= b@.len() <= u32::MAX,
        4 + 4 * (n as int) <= b@.len(),
        b@.subrange(4, 8) == spec_u32_to_le_bytes((4 + 4 * (n as int)) as u32),
    ensures
        match r {
            Some(bs) => {
                &&& bs@.len() == n
                &&& cat(byte_string_encs(bs@)) == b@.subrange(4 + 4 * (n as int), b@.len() as int)
                &&& 4 + 4 * (n as int) + cat(byte_string_encs(bs@)).len() == b@.len()
                &&& (forall|j: int|
                    0 <= j < bs@.len() ==> (#[trigger] bs@[j]).0@.len() + 4 <= u32::MAX)
                &&& (forall|j: int|
                    0 <= j < n ==> b@.subrange(4 + 4 * j, 8 + 4 * j) == spec_u32_to_le_bytes(
                        (4 + 4 * (n as int) + cat(byte_string_encs(bs@).take(j)).len()) as u32,
                    ))
            },
            None => forall|bs: Seq<GraphqlBytes>|
                bs.len() == n && byte_strings_ok(bs) ==> #[trigger] byte_strings_enc(bs) != b@,
        },
{
    let mut bs: Vec<GraphqlBytes> = Vec::new();
    let mut prev: usize = 4 + 4 * n;
    let mut i: usize = 0;
    proof {
        assert(byte_string_encs(bs@).take(0) =~= Seq::<Seq<u8>>::empty());
    }
    while i < n
        invariant
            i <= n,
            1 <= n,
            bs@.len() == i,
            8 <= b@.len() <= u32::MAX,
            4 + 4 * (n as int) <= b@.len(),
            prev as int == 4 + 4 * (n as int) + cat(byte_string_encs(bs@)).len(),
            prev as int <= b@.len(),
            i == n ==> prev as int == b@.len(),
            cat(byte_string_encs(bs@)) == b@.subrange(4 + 4 * (n as int), prev as int),
            forall|j: int| 0 <= j < i ==> (#[trigger] bs@[j]).0@.len() + 4 <= u32::MAX,
            forall|j: int|
                0 <= j <= i && j < n ==> b@.subrange(4 + 4 * j, 8 + 4 * j)
                    == spec_u32_to_le_bytes(
                    (4 + 4 * (n as int) + cat(byte_string_encs(bs@).take(j)).len()) as u32,
                ),
        decreases n - i,
    {
        proof {
            lemma_auto_spec_u32_to_from_le_bytes();
        }
        let end: usize;
        if i + 1 < n {
            let next = u32_from_le_bytes(slice_subrange(b, 8 + 4 * i, 12 + 4 * i));
            if !(prev as u64 <= next as u64 && next as u64 <= b.len() as u64) {
                proof {
                    assert forall|bs2: Seq<GraphqlBytes>|
                        bs2.len() == n && byte_strings_ok(bs2) implies #[trigger] byte_strings_enc(
                        bs2,
                    ) != b@ by {
                        if byte_strings_enc(bs2) == b@ {
                            lemma_dynvec_enc_len(byte_string_encs(bs2));
                            lemma_dynvec_position(
                                byte_string_encs(bs2),
                                byte_string_encs(bs@),
                                b@,
                                n as int,
                                i as int,
                                prev as int,
                            );
                            let off1 = 4 + 4 * (n as int) + cat(
                                byte_string_encs(bs2).take(i as int + 1),
                            ).len();
                            assert(b@.subrange(4 + 4 * (i as int + 1), 8 + 4 * (i as int + 1))
                                == b@.subrange(8 + 4 * (i as int), 12 + 4 * (i as int)));
                            assert(off1 <= u32::MAX);
                            assert(spec_u32_to_le_bytes(off1 as u32).len() == 4);
                            assert(spec_u32_from_le_bytes(spec_u32_to_le_bytes(off1 as u32))
                                == off1 as u32);
                            assert(next as int == off1);
                            assert(false);
                        }
                    }
                }
                return None;
            }
            end = next as usize;
        } else {
            end = b.len();
        }
        if end - prev < 4 {
            proof {
                assert forall|bs2: Seq<GraphqlBytes>|
                    bs2.len() == n && byte_strings_ok(bs2) implies #[trigger] byte_strings_enc(
                    bs2,
                ) != b@ by {
                    if byte_strings_enc(bs2) == b@ {
                        lemma_dynvec_enc_len(byte_string_encs(bs2));
                        lemma_dynvec_position(
                            byte_string_encs(bs2),
                            byte_string_encs(bs@),
                            b@,
                            n as int,
                            i as int,
                            prev as int,
                        );
                        if i as int + 1 < n as int {
                            assert(spec_u32_to_le_bytes(end as u32) == b@.subrange(
                                8 + 4 * (i as int),
                                12 + 4 * (i as int),
                            ));
                        }
                        assert(end as int == 4 + 4 * (n as int) + cat(
                            byte_string_encs(bs2).take(i as int + 1),
                        ).len());
                        assert(byte_string_encs(bs2)[i as int].len() == 4 + bs2[i as int].0@.len());
                        assert(false);
                    }
                }
            }
            return None;
        }
        let chunk = slice_subrange(b, prev, end);
        let cnt = u32_from_le_bytes(slice_subrange(chunk, 0, 4));
        if cnt as u64 != (chunk.len() - 4) as u64 {
            proof {
                assert forall|bs2: Seq<GraphqlBytes>|
                    bs2.len() == n && byte_strings_ok(bs2) implies #[trigger] byte_strings_enc(
                    bs2,
                ) != b@ by {
                    if byte_strings_enc(bs2) == b@ {
                        lemma_dynvec_enc_len(byte_string_encs(bs2));
                        lemma_dynvec_position(
                            byte_string_encs(bs2),
                            byte_string_encs(bs@),
                            b@,
                            n as int,
                            i as int,
                            prev as int,
                        );
                        if i as int + 1 < n as int {
                            assert(spec_u32_to_le_bytes(end as u32) == b@.subrange(
                                8 + 4 * (i as int),
                                12 + 4 * (i as int),
                            ));
                        }
                        assert(end as int == 4 + 4 * (n as int) + cat(
                            byte_string_encs(bs2).take(i as int + 1),
                        ).len());
                        assert(chunk@ == bytes_enc(bs2[i as int].0@));
                        let dlen = bs2[i as int].0@.len() as int;
                        assert(dlen + 4 <= u32::MAX);
                        assert(chunk@.subrange(0, 4) =~= spec_u32_to_le_bytes(dlen as u32));
                        assert(spec_u32_to_le_bytes(dlen as u32).len() == 4);
                        assert(spec_u32_from_le_bytes(spec_u32_to_le_bytes(dlen as u32)) == dlen
                            as u32);
                        assert(cnt as int == dlen);
                        assert(false);
                    }
                }
            }
            return None;
        }
        let item = GraphqlBytes(slice_to_vec(slice_subrange(chunk, 4, chunk.len())));
        let ghost old_bs = bs@;
        proof {
            assert(chunk@ =~= chunk@.subrange(0, 4) + chunk@.subrange(4, chunk@.len() as int));
            assert(chunk@ == bytes_enc(item.0@));
        }
        bs.push(item);
        proof {
            assert(byte_string_encs(bs@) =~= byte_string_encs(old_bs).push(bytes_enc(item.0@)));
            assert(byte_string_encs(bs@).drop_last() =~= byte_string_encs(old_bs));
            assert(cat(byte_string_encs(bs@)) == cat(byte_string_encs(old_bs)) + bytes_enc(
                item.0@,
            ));
            assert(cat(byte_string_encs(bs@)) =~= b@.subrange(4 + 4 * (n as int), end as int));
            assert(forall|j: int|
                0 <= j <= i ==> byte_string_encs(bs@).take(j) =~= byte_string_encs(old_bs).take(
                    j,
                ));
            assert(byte_string_encs(bs@).take(i + 1) =~= byte_string_encs(bs@));
            if i as int + 1 < n as int {
                assert(spec_u32_to_le_bytes(end as u32) == b@.subrange(
                    8 + 4 * (i as int),
                    12 + 4 * (i as int),
                ));
                assert(end as int == 4 + 4 * (n as int) + cat(
                    byte_string_encs(bs@).take(i as int + 1),
                ).len());
                assert(b@.subrange(4 + 4 * (i as int + 1), 8 + 4 * (i as int + 1))
                    == spec_u32_to_le_bytes(
                    (4 + 4 * (n as int) + cat(byte_string_encs(bs@).take(i as int + 1)).len())
                        as u32,
                ));
            }
            assert forall|j: int|
                0 <= j <= i as int + 1 && j < n as int implies b@.subrange(4 + 4 * j, 8 + 4 * j)
                == spec_u32_to_le_bytes(
                (4 + 4 * (n as int) + cat(byte_string_encs(bs@).take(j)).len()) as u32,
            ) by {
                if j <= i as int {
                    assert(byte_string_encs(bs@).take(j) =~= byte_string_encs(old_bs).take(j));
                }
            }
        }
        prev = end;
        i = i + 1;
    }
    Some(bs)
}

/// Parses a byte-string vector; the accepted input is byte-identical to
/// the canonical encoding of the result.
#[verifier::rlimit(100)]
fn parse_byte_strings(b: &[u8]) -> (r: Option<Vec<GraphqlBytes>>)
    ensures
        match r {
            Some(bs) => byte_strings_enc(bs@) == b@ && bs@.len() <= u32::MAX && (forall|j: int|
                0 <= j < bs@.len() ==> (#[trigger] bs@[j]).0@.len() + 4 <= u32::MAX),
            None => forall|bs: Seq<GraphqlBytes>|
                byte_strings_ok(bs) ==> #[trigger] byte_strings_enc(bs) != b@,
        },
{
    proof {
        lemma_auto_spec_u32_to_from_le_bytes();
    }
    if b.len() < 4 {
        proof {
            assert forall|bs2: Seq<GraphqlBytes>|
                byte_strings_ok(bs2) implies #[trigger] byte_strings_enc(bs2) != b@ by {
                if byte_strings_enc(bs2) == b@ {
                    lemma_dynvec_enc_len(byte_string_encs(bs2));
                    assert(false);
                }
            }
        }
        return None;
    }
    let total = u32_from_le_bytes(slice_subrange(b, 0, 4));
    if total as u64 != b.len() as u64 {
        proof {
            assert forall|bs2: Seq<GraphqlBytes>|
                byte_strings_ok(bs2) implies #[trigger] byte_strings_enc(bs2) != b@ by {
                if byte_strings_enc(bs2) == b@ {
                    lemma_dynvec_enc_len(byte_string_encs(bs2));
                    if bs2.len() == 0 {
                        assert(b@ =~= b@.subrange(0, 4));
                        assert(spec_u32_to_le_bytes(4u32).len() == 4);
                        assert(spec_u32_from_le_bytes(spec_u32_to_le_bytes(4u32)) == 4u32);
                        assert(total == 4);
                    } else {
                        lemma_dynvec_header(byte_string_encs(bs2), b@);
                        let sz = dynvec_size(byte_string_encs(bs2));
                        assert(spec_u32_to_le_bytes(sz as u32).len() == 4);
                        assert(spec_u32_from_le_bytes(spec_u32_to_le_bytes(sz as u32)) == sz
                            as u32);
                        assert(total == sz as u32);
                    }
                    assert(false);
                }
            }
        }
        return None;
    }
    if b.len() == 4 {
        let bs: Vec<GraphqlBytes> = Vec::new();
        proof {
            assert(byte_string_encs(bs@) =~= Seq::<Seq<u8>>::empty());
            assert(b@ =~= b@.subrange(0, 4));
            assert(byte_strings_enc(bs@) == b@);
        }
        return Some(bs);
    }
    if b.len() < 8 {
        proof {
            assert forall|bs2: Seq<GraphqlBytes>|
                byte_strings_ok(bs2) implies #[trigger] byte_strings_enc(bs2) != b@ by {
                if byte_strings_enc(bs2) == b@ {
                    lemma_dynvec_enc_len(byte_string_encs(bs2));
                    assert(false);
                }
            }
        }
        return None;
    }
    let o0 = u32_from_le_bytes(slice_subrange(b, 4, 8));
    if !(o0 >= 8 && o0 % 4 == 0 && o0 as u64 <= b.len() as u64) {
        proof {
            assert forall|bs2: Seq<GraphqlBytes>|
                byte_strings_ok(bs2) implies #[trigger] byte_strings_enc(bs2) != b@ by {
                if byte_strings_enc(bs2) == b@ {
                    lemma_dynvec_enc_len(byte_string_encs(bs2));
                    lemma_dynvec_header(byte_string_encs(bs2), b@);
                    let m = byte_string_encs(bs2).len();
                    assert(spec_u32_to_le_bytes((4 + 4 * m) as u32).len() == 4);
                    assert(spec_u32_from_le_bytes(spec_u32_to_le_bytes((4 + 4 * m) as u32)) == (4
                        + 4 * m) as u32);
                    assert(o0 as int == 4 + 4 * m);
                    assert((4 + 4 * m) % 4 == 0) by (nonlinear_arith);
                    assert(false);
                }
            }
        }
        return None;
    }
    let n: usize = ((o0 - 4) / 4) as usize;
    proof {
        assert(4 + 4 * (n as int) == o0 as int);
    }
    let bs = match parse_byte_strings_items(b, n) {
        Some(v) => v,
        None => {
            proof {
                assert forall|bs2: Seq<GraphqlBytes>|
                    byte_strings_ok(bs2) implies #[trigger] byte_strings_enc(bs2) != b@ by {
                    if byte_strings_enc(bs2) == b@ {
                        lemma_dynvec_enc_len(byte_string_encs(bs2));
                        lemma_dynvec_header(byte_string_encs(bs2), b@);
                        let m = byte_string_encs(bs2).len();
                        assert(spec_u32_to_le_bytes((4 + 4 * m) as u32).len() == 4);
                        assert(spec_u32_from_le_bytes(spec_u32_to_le_bytes((4 + 4 * m) as u32))
                            == (4 + 4 * m) as u32);
                        assert(o0 as int == 4 + 4 * m);
                        assert(bs2.len() == n);
                        assert(false);
                    }
                }
            }
            return None;
        },
    };
    proof {
        let items = byte_string_encs(bs@);
        assert(forall|j: int|
            0 <= j < dyn_offsets(items).len() ==> #[trigger] dyn_offsets(items)[j] == b@.subrange(
                4 + 4 * j,
                4 + 4 * j + 4,
            ));
        lemma_cat_of_chunks(dyn_offsets(items), b@, 4, 4);
        assert(b@ =~= b@.subrange(0, 4) + b@.subrange(4, 4 + 4 * (n as int)) + b@.subrange(
            4 + 4 * (n as int),
            b@.len() as int,
        ));
        assert(byte_strings_enc(bs@) =~= b@);
    }
    Some(bs)
}

/// Two vectors with the same encoding hold the same number of items.
proof fn lemma_dynvec_count(x: Seq<Seq<u8>>, y: Seq<Seq<u8>>)
    requires
        dynvec_enc(x) == dynvec_enc(y),
        dynvec_size(x) <= u32::MAX,
        dynvec_size(y) <= u32::MAX,
    ensures
        x.len() == y.len(),
{
    lemma_auto_spec_u32_to_from_le_bytes();
    lemma_dynvec_enc_len(x);
    lemma_dynvec_enc_len(y);
    if x.len() >= 1 && y.len() >= 1 {
        lemma_dynvec_header(x, dynvec_enc(x));
        lemma_dynvec_header(y, dynvec_enc(y));
        assert(spec_u32_to_le_bytes((4 + 4 * x.len()) as u32) == spec_u32_to_le_bytes(
            (4 + 4 * y.len()) as u32,
        ));
        assert(spec_u32_to_le_bytes((4 + 4 * x.len()) as u32).len() == 4);
        assert(spec_u32_to_le_bytes((4 + 4 * y.len()) as u32).len() == 4);
        assert(spec_u32_from_le_bytes(spec_u32_to_le_bytes((4 + 4 * x.len()) as u32)) == (4 + 4
            * x.len()) as u32);
        assert(spec_u32_from_le_bytes(spec_u32_to_le_bytes((4 + 4 * y.len()) as u32)) == (4 + 4
            * y.len()) as u32);
    }
}

/// How a whole transaction's canonical encoding splits into its header,
/// its raw portion and its witness vector.
proof fn lemma_tx_enc_parts(t: TransactionView, b: Seq<u8>)
    requires
        b == tx_enc(t),
        tx_size(t) <= u32::MAX,
    ensures
        b.len() == tx_size(t),
        b.len() >= 12 + raw_tx_size(t),
        raw_tx_size(t) >= 52,
        b.subrange(0, 4) == spec_u32_to_le_bytes(tx_size(t) as u32),
        b.subrange(4, 8) == spec_u32_to_le_bytes(12u32),
        b.subrange(8, 12) == spec_u32_to_le_bytes((12 + raw_tx_size(t)) as u32),
        b.subrange(12, 12 + raw_tx_size(t)) == raw_tx_enc(t),
        b.subrange(12 + raw_tx_size(t), b.len() as int) == byte_strings_enc(t.witnesses@),
{
    lemma_auto_spec_u32_to_from_le_bytes();
    lemma_tx_enc_len(t);
    lemma_raw_tx_enc_len(t);
    lemma_dynvec_enc_len(output_encs(t.outputs@));
    lemma_dynvec_enc_len(byte_string_encs(t.outputs_data@));
    lemma_dynvec_enc_len(byte_string_encs(t.witnesses@));
    assert(b.subrange(0, 4) =~= spec_u32_to_le_bytes(tx_size(t) as u32));
    assert(b.subrange(4, 8) =~= spec_u32_to_le_bytes(12u32));
    assert(b.subrange(8, 12) =~= spec_u32_to_le_bytes((12 + raw_tx_size(t)) as u32));
    assert(b.subrange(12, 12 + raw_tx_size(t)) =~= raw_tx_enc(t));
    assert(b.subrange(12 + raw_tx_size(t), b.len() as int) =~= byte_strings_enc(t.witnesses@));
}

/// How the raw portion's canonical encoding splits into its header, the
/// version and the five vector fields.
proof fn lemma_raw_tx_enc_parts(t: TransactionView, b: Seq<u8>)
    requires
        b == raw_tx_enc(t),
        raw_tx_size(t) <= u32::MAX,
    ensures
        b.len() == raw_tx_size(t),
        b.len() >= 52,
        b.subrange(0, 4) == spec_u32_to_le_bytes(raw_tx_size(t) as u32),
        b.subrange(4, 8) == spec_u32_to_le_bytes(28u32),
        b.subrange(8, 12) == spec_u32_to_le_bytes(32u32),
        b.subrange(12, 16) == spec_u32_to_le_bytes(
            (32 + cell_deps_enc(t.cell_deps@).len()) as u32,
        ),
        b.subrange(16, 20) == spec_u32_to_le_bytes(
            (32 + cell_deps_enc(t.cell_deps@).len() + header_deps_enc(t.header_deps@).len())
                as u32,
        ),
        b.subrange(20, 24) == spec_u32_to_le_bytes(
            (32 + cell_deps_enc(t.cell_deps@).len() + header_deps_enc(t.header_deps@).len()
                + inputs_enc(t.inputs@).len()) as u32,
        ),
        b.subrange(24, 28) == spec_u32_to_le_bytes(
            (32 + cell_deps_enc(t.cell_deps@).len() + header_deps_enc(t.header_deps@).len()
                + inputs_enc(t.inputs@).len() + outputs_enc(t.outputs@).len()) as u32,
        ),
        b.subrange(28, 32) == spec_u32_to_le_bytes(t.version.0),
        b.subrange(32, 32 + cell_deps_enc(t.cell_deps@).len() as int) == cell_deps_enc(
            t.cell_deps@,
        ),
        b.subrange(
            32 + cell_deps_enc(t.cell_deps@).len() as int,
            32 + cell_deps_enc(t.cell_deps@).len() as int + header_deps_enc(
                t.header_deps@,
            ).len() as int,
        ) == header_deps_enc(t.header_deps@),
        b.subrange(
            32 + cell_deps_enc(t.cell_deps@).len() as int + header_deps_enc(
                t.header_deps@,
            ).len() as int,
            32 + cell_deps_enc(t.cell_deps@).len() as int + header_deps_enc(
                t.header_deps@,
            ).len() as int + inputs_enc(t.inputs@).len() as int,
        ) == inputs_enc(t.inputs@),
        b.subrange(
            32 + cell_deps_enc(t.cell_deps@).len() as int + header_deps_enc(
                t.header_deps@,
            ).len() as int + inputs_enc(t.inputs@).len() as int,
            32 + cell_deps_enc(t.cell_deps@).len() as int + header_deps_enc(
                t.header_deps@,
            ).len() as int + inputs_enc(t.inputs@).len() as int + outputs_enc(
                t.outputs@,
            ).len() as int,
        ) == outputs_enc(t.outputs@),
        b.subrange(
            32 + cell_deps_enc(t.cell_deps@).len() as int + header_deps_enc(
                t.header_deps@,
            ).len() as int + inputs_enc(t.inputs@).len() as int + outputs_enc(
                t.outputs@,
            ).len() as int,
            b.len() as int,
        ) == byte_strings_enc(t.outputs_data@),
{
    lemma_auto_spec_u32_to_from_le_bytes();
    lemma_raw_tx_enc_len(t);
    lemma_dynvec_enc_len(output_encs(t.outputs@));
    lemma_dynvec_enc_len(byte_string_encs(t.outputs_data@));
    let l1 = cell_deps_enc(t.cell_deps@).len() as int;
    let l2 = header_deps_enc(t.header_deps@).len() as int;
    let l3 = inputs_enc(t.inputs@).len() as int;
    let l4 = outputs_enc(t.outputs@).len() as int;
    assert(b.subrange(0, 4) =~= spec_u32_to_le_bytes(raw_tx_size(t) as u32));
    assert(b.subrange(4, 8) =~= spec_u32_to_le_bytes(28u32));
    assert(b.subrange(8, 12) =~= spec_u32_to_le_bytes(32u32));
    assert(b.subrange(12, 16) =~= spec_u32_to_le_bytes((32 + l1) as u32));
    assert(b.subrange(16, 20) =~= spec_u32_to_le_bytes((32 + l1 + l2) as u32));
    assert(b.subrange(20, 24) =~= spec_u32_to_le_bytes((32 + l1 + l2 + l3) as u32));
    assert(b.subrange(24, 28) =~= spec_u32_to_le_bytes((32 + l1 + l2 + l3 + l4) as u32));
    assert(b.subrange(28, 32) =~= spec_u32_to_le_bytes(t.version.0));
    assert(b.subrange(32, 32 + l1) =~= cell_deps_enc(t.cell_deps@));
    assert(b.subrange(32 + l1, 32 + l1 + l2) =~= header_deps_enc(t.header_deps@));
    assert(b.subrange(32 + l1 + l2, 32 + l1 + l2 + l3) =~= inputs_enc(t.inputs@));
    assert(b.subrange(32 + l1 + l2 + l3, 32 + l1 + l2 + l3 + l4) =~= outputs_enc(t.outputs@));
    assert(b.subrange(32 + l1 + l2 + l3 + l4, b.len() as int) =~= byte_strings_enc(
        t.outputs_data@,
    ));
}

/// What each header read of a canonical transaction encoding returns.
proof fn lemma_tx_read_facts(t: TransactionView, b: Seq<u8>)
    requires
        b == tx_enc(t),
        tx_size(t) <= u32::MAX,
    ensures
        b.len() == tx_size(t),
        raw_tx_size(t) >= 52,
        12 + raw_tx_size(t) <= b.len(),
        spec_u32_from_le_bytes(b.subrange(0, 4)) as int == tx_size(t),
        spec_u32_from_le_bytes(b.subrange(4, 8)) == 12u32,
        spec_u32_from_le_bytes(b.subrange(8, 12)) as int == 12 + raw_tx_size(t),
        b.subrange(12, 12 + raw_tx_size(t)) == raw_tx_enc(t),
        b.subrange(12 + raw_tx_size(t), b.len() as int) == byte_strings_enc(t.witnesses@),
        byte_strings_enc(t.witnesses@).len() <= u32::MAX,
{
    lemma_auto_spec_u32_to_from_le_bytes();
    lemma_tx_enc_parts(t, b);
    assert(spec_u32_to_le_bytes(tx_size(t) as u32).len() == 4);
    assert(spec_u32_from_le_bytes(spec_u32_to_le_bytes(tx_size(t) as u32)) == tx_size(t) as u32);
    assert(spec_u32_to_le_bytes(12u32).len() == 4);
    assert(spec_u32_from_le_bytes(spec_u32_to_le_bytes(12u32)) == 12u32);
    assert(spec_u32_to_le_bytes((12 + raw_tx_size(t)) as u32).len() == 4);
    assert(spec_u32_from_le_bytes(spec_u32_to_le_bytes((12 + raw_tx_size(t)) as u32)) == (12
        + raw_tx_size(t)) as u32);
}

/// What each header read of a canonical raw-portion encoding returns,
/// and where each field stands in it.
proof fn lemma_raw_read_facts(t: TransactionView, rb: Seq<u8>)
    requires
        rb == raw_tx_enc(t),
        raw_tx_size(t) <= u32::MAX,
    ensures
        rb.len() == raw_tx_size(t),
        rb.len() >= 52,
        spec_u32_from_le_bytes(rb.subrange(0, 4)) as int == raw_tx_size(t),
        spec_u32_from_le_bytes(rb.subrange(4, 8)) == 28u32,
        spec_u32_from_le_bytes(rb.subrange(8, 12)) == 32u32,
        spec_u32_from_le_bytes(rb.subrange(12, 16)) as int == 32 + cell_deps_enc(
            t.cell_deps@,
        ).len(),
        spec_u32_from_le_bytes(rb.subrange(16, 20)) as int == 32 + cell_deps_enc(
            t.cell_deps@,
        ).len() + header_deps_enc(t.header_deps@).len(),
        spec_u32_from_le_bytes(rb.subrange(20, 24)) as int == 32 + cell_deps_enc(
            t.cell_deps@,
        ).len() + header_deps_enc(t.header_deps@).len() + inputs_enc(t.inputs@).len(),
        spec_u32_from_le_bytes(rb.subrange(24, 28)) as int == 32 + cell_deps_enc(
            t.cell_deps@,
        ).len() + header_deps_enc(t.header_deps@).len() + inputs_enc(t.inputs@).len()
            + outputs_enc(t.outputs@).len(),
        rb.subrange(32, 32 + cell_deps_enc(t.cell_deps@).len() as int) == cell_deps_enc(
            t.cell_deps@,
        ),
        rb.subrange(
            32 + cell_deps_enc(t.cell_deps@).len() as int,
            32 + cell_deps_enc(t.cell_deps@).len() as int + header_deps_enc(
                t.header_deps@,
            ).len() as int,
        ) == header_deps_enc(t.header_deps@),
        rb.subrange(
            32 + cell_deps_enc(t.cell_deps@).len() as int + header_deps_enc(
                t.header_deps@,
            ).len() as int,
            32 + cell_deps_enc(t.cell_deps@).len() as int + header_deps_enc(
                t.header_deps@,
            ).len() as int + inputs_enc(t.inputs@).len() as int,
        ) == inputs_enc(t.inputs@),
        rb.subrange(
            32 + cell_deps_enc(t.cell_deps@).len() as int + header_deps_enc(
                t.header_deps@,
            ).len() as int + inputs_enc(t.inputs@).len() as int,
            32 + cell_deps_enc(t.cell_deps@).len() as int + header_deps_enc(
                t.header_deps@,
            ).len() as int + inputs_enc(t.inputs@).len() as int + outputs_enc(
                t.outputs@,
            ).len() as int,
        ) == outputs_enc(t.outputs@),
        rb.subrange(
            32 + cell_deps_enc(t.cell_deps@).len() as int + header_deps_enc(
                t.header_deps@,
            ).len() as int + inputs_enc(t.inputs@).len() as int + outputs_enc(
                t.outputs@,
            ).len() as int,
            rb.len() as int,
        ) == byte_strings_enc(t.outputs_data@),
        cell_deps_enc(t.cell_deps@).len() <= u32::MAX,
        header_deps_enc(t.header_deps@).len() <= u32::MAX,
        inputs_enc(t.inputs@).len() <= u32::MAX,
        outputs_enc(t.outputs@).len() <= u32::MAX,
        byte_strings_enc(t.outputs_data@).len() <= u32::MAX,
{
    lemma_auto_spec_u32_to_from_le_bytes();
    lemma_raw_tx_enc_parts(t, rb);
    let l1 = cell_deps_enc(t.cell_deps@).len() as int;
    let l2 = header_deps_enc(t.header_deps@).len() as int;
    let l3 = inputs_enc(t.inputs@).len() as int;
    let l4 = outputs_enc(t.outputs@).len() as int;
    assert(spec_u32_to_le_bytes(raw_tx_size(t) as u32).len() == 4);
    assert(spec_u32_from_le_bytes(spec_u32_to_le_bytes(raw_tx_size(t) as u32)) == raw_tx_size(t)
        as u32);
    assert(spec_u32_to_le_bytes(28u32).len() == 4);
    assert(spec_u32_from_le_bytes(spec_u32_to_le_bytes(28u32)) == 28u32);
    assert(spec_u32_to_le_bytes(32u32).len() == 4);
    assert(spec_u32_from_le_bytes(spec_u32_to_le_bytes(32u32)) == 32u32);
    assert(spec_u32_to_le_bytes((32 + l1) as u32).len() == 4);
    assert(spec_u32_from_le_bytes(spec_u32_to_le_bytes((32 + l1) as u32)) == (32 + l1) as u32);
    assert(spec_u32_to_le_bytes((32 + l1 + l2) as u32).len() == 4);
    assert(spec_u32_from_le_bytes(spec_u32_to_le_bytes((32 + l1 + l2) as u32)) == (32 + l1 + l2)
        as u32);
    assert(spec_u32_to_le_bytes((32 + l1 + l2 + l3) as u32).len() == 4);
    assert(spec_u32_from_le_bytes(spec_u32_to_le_bytes((32 + l1 + l2 + l3) as u32)) == (32 + l1
        + l2 + l3) as u32);
    assert(spec_u32_to_le_bytes((32 + l1 + l2 + l3 + l4) as u32).len() == 4);
    assert(spec_u32_from_le_bytes(spec_u32_to_le_bytes((32 + l1 + l2 + l3 + l4) as u32)) == (32
        + l1 + l2 + l3 + l4) as u32);
}

/// The digest the outside hash function assigns to a byte sequence: a
/// collision-resistant hash over the canonical raw-transaction encoding,
/// a function of the bytes alone.
pub uninterp spec fn ckb_hash_of(data: Seq<u8>) -> Seq<u8>;

/// Relies on ckb_types's `RawTransactionReader`: `from_slice` verifies
/// the raw-transaction table layout without panicking and accepts every
/// canonical encoding (in particular each one this crate produces), and
/// `calc_tx_hash` returns the 32-byte blake2b-256 digest (under the
/// chain's personalization) of exactly the bytes given, a function of
/// those bytes alone.
#[verifier::external_body]
fn raw_tx_digest(raw: &Vec<u8>) -> (r: Option<H256>)
    ensures
        match r {
            Some(h) => h.0@ == ckb_hash_of(raw@) && ckb_hash_of(raw@).len() == 32,
            None => true,
        },
        (exists|t: TransactionView| tx_wf(t) && raw@ == raw_tx_enc(t)) ==> r is Some,
{
    match ckb_types::packed::RawTransactionReader::from_slice(raw.as_slice()) {
        Ok(reader) => {
            let digest = reader.calc_tx_hash();
            let mut array = [0u8; 32];
            array.copy_from_slice(digest.as_slice());
            Some(H256(array))
        },
        Err(_) => None,
    }
}

/// The field pass of the transaction parser: given a record whose two
/// headers have been read and checked, parses the six raw fields and
/// the witnesses, derives the hash, and assembles the typed view.
#[verifier::rlimit(100)]
#[verifier::spinoff_prover]
fn parse_tx_fields(
    b: &[u8],
    rb: &[u8],
    raw_end: usize,
    e2: usize,
    e3: usize,
    e4: usize,
    e5: usize,
    version: u32,
) -> (r: Result<TransactionView, Error>)
    requires
        b@.len() <= u32::MAX,
        12 <= raw_end,
        raw_end as int <= b@.len(),
        rb@ == b@.subrange(12, raw_end as int),
        spec_u32_from_le_bytes(b@.subrange(0, 4)) as int == b@.len(),
        spec_u32_from_le_bytes(b@.subrange(4, 8)) == 12u32,
        spec_u32_from_le_bytes(b@.subrange(8, 12)) as int == raw_end as int,
        rb@.len() >= 32,
        spec_u32_from_le_bytes(rb@.subrange(0, 4)) as int == rb@.len(),
        spec_u32_from_le_bytes(rb@.subrange(4, 8)) == 28u32,
        spec_u32_from_le_bytes(rb@.subrange(8, 12)) == 32u32,
        spec_u32_from_le_bytes(rb@.subrange(12, 16)) as int == e2 as int,
        spec_u32_from_le_bytes(rb@.subrange(16, 20)) as int == e3 as int,
        spec_u32_from_le_bytes(rb@.subrange(20, 24)) as int == e4 as int,
        spec_u32_from_le_bytes(rb@.subrange(24, 28)) as int == e5 as int,
        spec_u32_from_le_bytes(rb@.subrange(28, 32)) == version,
        32 <= e2 <= e3 <= e4 <= e5,
        e5 as int <= rb@.len(),
    ensures
        match r {
            Ok(t) => tx_wf(t) && b@ == tx_enc(t) && t.hash.0@ == ckb_hash_of(raw_tx_enc(t)),
            Err(e) => (e == Error::ParseBytes || e == Error::InvalidTag) && (forall|
                t: TransactionView,
            |
                tx_wf(t) ==> b@ != #[trigger] tx_enc(t)),
        },
{
    proof {
        lemma_auto_spec_u32_to_from_le_bytes();
    }
    let cell_deps = match parse_deps(slice_subrange(rb, 32, e2)) {
        Some(v) => v,
        None => {
            proof {
                assert forall|t2: TransactionView| tx_wf(t2) implies b@ != #[trigger] tx_enc(
                    t2,
                ) by {
                    if b@ == tx_enc(t2) {
                        lemma_tx_read_facts(t2, b@);
                        assert(raw_end as int == 12 + raw_tx_size(t2));
                        assert(rb@ == raw_tx_enc(t2));
                        lemma_raw_read_facts(t2, rb@);
                        assert(e2 as int == 32 + cell_deps_enc(t2.cell_deps@).len());
                        assert(false);
                    }
                }
            }
            return Err(Error::ParseBytes);
        },
    };
    let header_deps = match parse_hashes(slice_subrange(rb, e2, e3)) {
        Some(v) => v,
        None => {
            proof {
                assert forall|t2: TransactionView| tx_wf(t2) implies b@ != #[trigger] tx_enc(
                    t2,
                ) by {
                    if b@ == tx_enc(t2) {
                        lemma_tx_read_facts(t2, b@);
                        assert(raw_end as int == 12 + raw_tx_size(t2));
                        assert(rb@ == raw_tx_enc(t2));
                        lemma_raw_read_facts(t2, rb@);
                        assert(e2 as int == 32 + cell_deps_enc(t2.cell_deps@).len());
                        assert(e3 as int == e2 as int + header_deps_enc(t2.header_deps@).len());
                        assert(false);
                    }
                }
            }
            return Err(Error::ParseBytes);
        },
    };
    let inputs = match parse_inputs(slice_subrange(rb, e3, e4)) {
        Some(v) => v,
        None => {
            proof {
                assert forall|t2: TransactionView| tx_wf(t2) implies b@ != #[trigger] tx_enc(
                    t2,
                ) by {
                    if b@ == tx_enc(t2) {
                        lemma_tx_read_facts(t2, b@);
                        assert(raw_end as int == 12 + raw_tx_size(t2));
                        assert(rb@ == raw_tx_enc(t2));
                        lemma_raw_read_facts(t2, rb@);
                        assert(e3 as int == 32 + cell_deps_enc(t2.cell_deps@).len() + header_deps_enc(t2.header_deps@).len());
                        assert(e4 as int == e3 as int + inputs_enc(t2.inputs@).len());
                        assert(false);
                    }
                }
            }
            return Err(Error::ParseBytes);
        },
    };
    let outputs = match parse_outputs(slice_subrange(rb, e4, e5)) {
        Some(v) => v,
        None => {
            proof {
                assert forall|t2: TransactionView| tx_wf(t2) implies b@ != #[trigger] tx_enc(
                    t2,
                ) by {
                    if b@ == tx_enc(t2) {
                        lemma_tx_read_facts(t2, b@);
                        assert(raw_end as int == 12 + raw_tx_size(t2));
                        assert(rb@ == raw_tx_enc(t2));
                        lemma_raw_read_facts(t2, rb@);
                        assert(e4 as int == 32 + cell_deps_enc(t2.cell_deps@).len() + header_deps_enc(t2.header_deps@).len() + inputs_enc(t2.inputs@).len());
                        assert(e5 as int == e4 as int + outputs_enc(t2.outputs@).len());
                        assert(outputs_ok(t2.outputs@));
                        assert(false);
                    }
                }
            }
            return Err(Error::ParseBytes);
        },
    };
    let outputs_data = match parse_byte_strings(slice_subrange(rb, e5, rb.len())) {
        Some(v) => v,
        None => {
            proof {
                assert forall|t2: TransactionView| tx_wf(t2) implies b@ != #[trigger] tx_enc(
                    t2,
                ) by {
                    if b@ == tx_enc(t2) {
                        lemma_tx_read_facts(t2, b@);
                        assert(raw_end as int == 12 + raw_tx_size(t2));
                        assert(rb@ == raw_tx_enc(t2));
                        lemma_raw_read_facts(t2, rb@);
                        assert(e5 as int == 32 + cell_deps_enc(t2.cell_deps@).len() + header_deps_enc(t2.header_deps@).len() + inputs_enc(t2.inputs@).len() + outputs_enc(t2.outputs@).len());
                        assert(byte_strings_ok(t2.outputs_data@));
                        assert(false);
                    }
                }
            }
            return Err(Error::ParseBytes);
        },
    };
    let witnesses = match parse_byte_strings(slice_subrange(b, raw_end, b.len())) {
        Some(v) => v,
        None => {
            proof {
                assert forall|t2: TransactionView| tx_wf(t2) implies b@ != #[trigger] tx_enc(
                    t2,
                ) by {
                    if b@ == tx_enc(t2) {
                        lemma_tx_read_facts(t2, b@);
                        assert(raw_end as int == 12 + raw_tx_size(t2));
                        assert(rb@ == raw_tx_enc(t2));
                        lemma_raw_read_facts(t2, rb@);
                        assert(byte_strings_ok(t2.witnesses@));
                        assert(false);
                    }
                }
            }
            return Err(Error::ParseBytes);
        },
    };
    if outputs.len() != outputs_data.len() {
            proof {
                assert forall|t2: TransactionView| tx_wf(t2) implies b@ != #[trigger] tx_enc(
                    t2,
                ) by {
                    if b@ == tx_enc(t2) {
                        lemma_tx_read_facts(t2, b@);
                        assert(raw_end as int == 12 + raw_tx_size(t2));
                        assert(rb@ == raw_tx_enc(t2));
                        lemma_raw_read_facts(t2, rb@);
                        assert(outputs_enc(outputs@) == outputs_enc(t2.outputs@));
                        lemma_dynvec_enc_len(output_encs(outputs@));
                        lemma_dynvec_enc_len(output_encs(t2.outputs@));
                        lemma_dynvec_count(output_encs(outputs@), output_encs(t2.outputs@));
                        assert(byte_strings_enc(outputs_data@) == byte_strings_enc(
                            t2.outputs_data@,
                        ));
                        lemma_dynvec_enc_len(byte_string_encs(outputs_data@));
                        lemma_dynvec_enc_len(byte_string_encs(t2.outputs_data@));
                        lemma_dynvec_count(
                            byte_string_encs(outputs_data@),
                            byte_string_encs(t2.outputs_data@),
                        );
                        assert(false);
                    }
                }
            }
            return Err(Error::ParseBytes);
    }
    let raw_bin = slice_to_vec(rb);
    let hash = match raw_tx_digest(&raw_bin) {
        Some(h) => h,
        None => {
            proof {
                assert forall|t2: TransactionView| tx_wf(t2) implies b@ != #[trigger] tx_enc(
                    t2,
                ) by {
                    if b@ == tx_enc(t2) {
                        lemma_tx_read_facts(t2, b@);
                        assert(raw_end as int == 12 + raw_tx_size(t2));
                        assert(rb@ == raw_tx_enc(t2));
                        lemma_raw_read_facts(t2, rb@);
                        assert(tx_wf(t2) && raw_bin@ == raw_tx_enc(t2));
                        assert(false);
                    }
                }
            }
            return Err(Error::ParseBytes);
        },
    };
    let t = TransactionView {
        version: Uint32(version),
        cell_deps,
        header_deps,
        inputs,
        outputs,
        outputs_data,
        witnesses,
        hash,
    };
    proof {
        assert(rb@ =~= rb@.subrange(0, 4) + rb@.subrange(4, 8) + rb@.subrange(8, 12)
            + rb@.subrange(12, 16) + rb@.subrange(16, 20) + rb@.subrange(20, 24) + rb@.subrange(
            24,
            28,
        ) + rb@.subrange(28, 32) + rb@.subrange(32, e2 as int) + rb@.subrange(
            e2 as int,
            e3 as int,
        ) + rb@.subrange(e3 as int, e4 as int) + rb@.subrange(e4 as int, e5 as int)
            + rb@.subrange(e5 as int, rb@.len() as int));
        assert(raw_tx_size(t) == rb@.len());
        assert(rb@ =~= raw_tx_enc(t));
        assert(b@ =~= b@.subrange(0, 4) + b@.subrange(4, 8) + b@.subrange(8, 12) + b@.subrange(
            12,
            raw_end as int,
        ) + b@.subrange(raw_end as int, b@.len() as int));
        assert(tx_size(t) == b@.len());
        assert(b@ =~= tx_enc(t));
    }
    Ok(t)
}

impl TransactionView {
    /// Serializes the raw (structural) portion to its canonical
    /// encoding: the bytes the transaction hash is computed over.
    pub fn raw_to_binary(&self) -> (r: Vec<u8>)
        requires
            tx_wf(*self),
        ensures
            r@ == raw_tx_enc(*self),
            r@.len() == raw_tx_size(*self),
    {
        proof {
            lemma_auto_spec_u32_to_from_le_bytes();
            lemma_auto_spec_u64_to_from_le_bytes();
            assert(forall|j: int|
                0 <= j < dep_encs(self.cell_deps@).len() ==> (#[trigger] dep_encs(
                    self.cell_deps@,
                )[j]).len() == 37);
            lemma_cat_fixed_len(dep_encs(self.cell_deps@), 37);
            assert(forall|j: int|
                0 <= j < hash_encs(self.header_deps@).len() ==> (#[trigger] hash_encs(
                    self.header_deps@,
                )[j]).len() == 32);
            lemma_cat_fixed_len(hash_encs(self.header_deps@), 32);
            assert(forall|j: int|
                0 <= j < input_encs(self.inputs@).len() ==> (#[trigger] input_encs(
                    self.inputs@,
                )[j]).len() == 44);
            lemma_cat_fixed_len(input_encs(self.inputs@), 44);
            lemma_dynvec_enc_len(output_encs(self.outputs@));
            lemma_dynvec_enc_len(byte_string_encs(self.outputs_data@));
        }
        let dep_vecs = encode_deps(&self.cell_deps);
        let f1 = build_fixvec(&dep_vecs);
        let hash_vecs = encode_hashes(&self.header_deps);
        let f2 = build_fixvec(&hash_vecs);
        let input_vecs = encode_inputs(&self.inputs);
        let f3 = build_fixvec(&input_vecs);
        let output_vecs = encode_outputs(&self.outputs);
        let f4 = build_dynvec(&output_vecs);
        let data_vecs = encode_byte_strings(&self.outputs_data);
        let f5 = build_dynvec(&data_vecs);
        let total: u64 = 32 + f1.len() as u64 + f2.len() as u64 + f3.len() as u64 + f4.len() as u64
            + f5.len() as u64;
        let mut out = u32_to_le_bytes(total as u32);
        let mut t = u32_to_le_bytes(28);
        out.append(&mut t);
        let mut t = u32_to_le_bytes(32);
        out.append(&mut t);
        let off3: u64 = 32 + f1.len() as u64;
        let mut t = u32_to_le_bytes(off3 as u32);
        out.append(&mut t);
        let off4: u64 = off3 + f2.len() as u64;
        let mut t = u32_to_le_bytes(off4 as u32);
        out.append(&mut t);
        let off5: u64 = off4 + f3.len() as u64;
        let mut t = u32_to_le_bytes(off5 as u32);
        out.append(&mut t);
        let off6: u64 = off5 + f4.len() as u64;
        let mut t = u32_to_le_bytes(off6 as u32);
        out.append(&mut t);
        let mut t = u32_to_le_bytes(self.version.0);
        out.append(&mut t);
        out.extend_from_slice(f1.as_slice());
        out.extend_from_slice(f2.as_slice());
        out.extend_from_slice(f3.as_slice());
        out.extend_from_slice(f4.as_slice());
        out.extend_from_slice(f5.as_slice());
        proof {
            lemma_raw_tx_enc_len(*self);
            assert(out@ =~= raw_tx_enc(*self));
        }
        out
    }

    /// Serializes the whole transaction to its canonical encoding. The
    /// derived hash field is not part of the encoding.
    pub fn to_binary(&self) -> (r: Vec<u8>)
        requires
            tx_wf(*self),
        ensures
            r@ == tx_enc(*self),
            r@.len() == tx_size(*self),
    {
        proof {
            lemma_dynvec_enc_len(byte_string_encs(self.witnesses@));
            lemma_raw_tx_enc_len(*self);
        }
        let raw = self.raw_to_binary();
        let wit_vecs = encode_byte_strings(&self.witnesses);
        let wits = build_dynvec(&wit_vecs);
        let total: u64 = 12 + raw.len() as u64 + wits.len() as u64;
        let mut out = u32_to_le_bytes(total as u32);
        let mut t = u32_to_le_bytes(12);
        out.append(&mut t);
        let off: u64 = 12 + raw.len() as u64;
        let mut t = u32_to_le_bytes(off as u32);
        out.append(&mut t);
        out.extend_from_slice(raw.as_slice());
        out.extend_from_slice(wits.as_slice());
        proof {
            lemma_auto_spec_u32_to_from_le_bytes();
            lemma_tx_enc_len(*self);
            assert(out@ =~= tx_enc(*self));
        }
        out
    }

    /// Deserializes a whole transaction record. The accepted input is
    /// byte-identical to the canonical re-encoding of the result; the
    /// parallel output arrays are rejected unless equal in length; and
    /// the derived hash is the outside digest of the raw portion's
    /// canonical encoding.
    #[verifier::rlimit(100)]
    #[verifier::spinoff_prover]
    pub fn from_binary(b: &[u8]) -> (r: Result<TransactionView, Error>)
        ensures
            match r {
                Ok(t) => tx_wf(t) && b@ == tx_enc(t) && t.hash.0@ == ckb_hash_of(raw_tx_enc(t)),
                Err(e) => (e == Error::ParseBytes || e == Error::InvalidTag) && (forall|
                    t: TransactionView,
                |
                    tx_wf(t) ==> b@ != #[trigger] tx_enc(t)),
            },
    {
        proof {
            lemma_auto_spec_u32_to_from_le_bytes();
        }
        if b.len() < 12 {
                proof {
                    assert forall|t2: TransactionView| tx_wf(t2) implies b@ != #[trigger] tx_enc(
                        t2,
                    ) by {
                        if b@ == tx_enc(t2) {
                            lemma_tx_read_facts(t2, b@);
                            assert(false);
                        }
                    }
                }
                return Err(Error::ParseBytes);
        }
        let total = u32_from_le_bytes(slice_subrange(b, 0, 4));
        if total as u64 != b.len() as u64 {
                proof {
                    assert forall|t2: TransactionView| tx_wf(t2) implies b@ != #[trigger] tx_enc(
                        t2,
                    ) by {
                        if b@ == tx_enc(t2) {
                            lemma_tx_read_facts(t2, b@);
                            assert(total as int == tx_size(t2));
                            assert(false);
                        }
                    }
                }
                return Err(Error::ParseBytes);
        }
        let o0 = u32_from_le_bytes(slice_subrange(b, 4, 8));
        let o1 = u32_from_le_bytes(slice_subrange(b, 8, 12));
        if !(o0 == 12 && 12 <= o1 && o1 as u64 <= b.len() as u64) {
                proof {
                    assert forall|t2: TransactionView| tx_wf(t2) implies b@ != #[trigger] tx_enc(
                        t2,
                    ) by {
                        if b@ == tx_enc(t2) {
                            lemma_tx_read_facts(t2, b@);
                            assert(o0 == 12);
                            assert(o1 as int == 12 + raw_tx_size(t2));
                            assert(false);
                        }
                    }
                }
                return Err(Error::ParseBytes);
        }
        let raw_end = o1 as usize;
        let rb = slice_subrange(b, 12, raw_end);
        if rb.len() < 32 {
                proof {
                    assert forall|t2: TransactionView| tx_wf(t2) implies b@ != #[trigger] tx_enc(
                        t2,
                    ) by {
                        if b@ == tx_enc(t2) {
                            lemma_tx_read_facts(t2, b@);
                            assert(o1 as int == 12 + raw_tx_size(t2));
                            assert(rb@ == raw_tx_enc(t2));
                            lemma_raw_read_facts(t2, rb@);
                            assert(false);
                        }
                    }
                }
                return Err(Error::ParseBytes);
        }
        let rtotal = u32_from_le_bytes(slice_subrange(rb, 0, 4));
        if rtotal as u64 != rb.len() as u64 {
                proof {
                    assert forall|t2: TransactionView| tx_wf(t2) implies b@ != #[trigger] tx_enc(
                        t2,
                    ) by {
                        if b@ == tx_enc(t2) {
                            lemma_tx_read_facts(t2, b@);
                            assert(o1 as int == 12 + raw_tx_size(t2));
                            assert(rb@ == raw_tx_enc(t2));
                            lemma_raw_read_facts(t2, rb@);
                            assert(rtotal as int == raw_tx_size(t2));
                            assert(false);
                        }
                    }
                }
                return Err(Error::ParseBytes);
        }
        let r0 = u32_from_le_bytes(slice_subrange(rb, 4, 8));
        let r1 = u32_from_le_bytes(slice_subrange(rb, 8, 12));
        let r2 = u32_from_le_bytes(slice_subrange(rb, 12, 16));
        let r3 = u32_from_le_bytes(slice_subrange(rb, 16, 20));
        let r4 = u32_from_le_bytes(slice_subrange(rb, 20, 24));
        let r5 = u32_from_le_bytes(slice_subrange(rb, 24, 28));
        if !(r0 == 28 && r1 == 32 && 32 <= r2 && r2 <= r3 && r3 <= r4 && r4 <= r5 && r5 as u64
            <= rb.len() as u64) {
                proof {
                    assert forall|t2: TransactionView| tx_wf(t2) implies b@ != #[trigger] tx_enc(
                        t2,
                    ) by {
                        if b@ == tx_enc(t2) {
                            lemma_tx_read_facts(t2, b@);
                            assert(o1 as int == 12 + raw_tx_size(t2));
                            assert(rb@ == raw_tx_enc(t2));
                            lemma_raw_read_facts(t2, rb@);
                            assert(false);
                        }
                    }
                }
                return Err(Error::ParseBytes);
        }
        let version = u32_from_le_bytes(slice_subrange(rb, 28, 32));
        let e2 = r2 as usize;
        let e3 = r3 as usize;
        let e4 = r4 as usize;
        let e5 = r5 as usize;
        parse_tx_fields(b, rb, raw_end, e2, e3, e4, e5, version)
    }
}

} // verus!
