//! Typed cells, scripts and their canonical binary layout.
//!
//! Every entity here has one canonical binary encoding, given by a spec
//! function; `to_binary` is proved to produce it and `from_binary` is
//! proved to accept nothing else.

use vstd::prelude::*;
use vstd::bytes::*;
use vstd::slice::slice_subrange;

use crate::error::Error;
use crate::{H256, Uint32, Uint64, GraphqlBytes};

verus! {

/// Specifies how a script's `code_hash` is used to match the script code
/// and how to run the code.
#[derive(Default, Copy, Clone, Debug, Hash, PartialEq, Eq, Structural)]
pub enum ScriptHashType {
    /// Matches script code via cell data hash, and runs it in the v0 VM.
    #[default]
    Data,
    /// Matches script code via cell type script hash.
    Type,
    /// Matches script code via cell data hash, and runs it in the v1 VM.
    Data1,
}

/// The tag byte that stands for a hash-type variant in the binary layout.
pub open spec fn hash_type_tag(t: ScriptHashType) -> u8 {
    match t {
        ScriptHashType::Data => 0,
        ScriptHashType::Type => 1,
        ScriptHashType::Data1 => 2,
    }
}

/// The hash-type variant a tag byte stands for, if any.
pub open spec fn hash_type_from_tag(value: u8) -> Option<ScriptHashType> {
    if value == 0 {
        Some(ScriptHashType::Data)
    } else if value == 1 {
        Some(ScriptHashType::Type)
    } else if value == 2 {
        Some(ScriptHashType::Data1)
    } else {
        None
    }
}

impl ScriptHashType {
    /// The tag byte of this variant in the binary layout.
    pub fn encode_tag(&self) -> (r: u8)
        ensures
            r == hash_type_tag(*self),
    {
        match self {
            ScriptHashType::Data => 0,
            ScriptHashType::Type => 1,
            ScriptHashType::Data1 => 2,
        }
    }

    /// The variant a tag byte stands for; any byte outside the defined
    /// set is rejected, never silently aliased.
    pub fn decode_tag(value: u8) -> (r: Result<Self, Error>)
        ensures
            match hash_type_from_tag(value) {
                Some(t) => r == Ok::<Self, Error>(t),
                None => r == Err::<Self, Error>(Error::InvalidTag),
            },
    {
        if value == 0 {
            Ok(ScriptHashType::Data)
        } else if value == 1 {
            Ok(ScriptHashType::Type)
        } else if value == 2 {
            Ok(ScriptHashType::Data1)
        } else {
            Err(Error::InvalidTag)
        }
    }

    /// The variant's textual name.
    pub fn name(&self) -> (r: &'static str)
        ensures
            r@ == hash_type_name(*self),
    {
        match self {
            ScriptHashType::Data => "data",
            ScriptHashType::Type => "type",
            ScriptHashType::Data1 => "data1",
        }
    }
}

/// The textual name of a hash-type variant.
pub open spec fn hash_type_name(t: ScriptHashType) -> Seq<char> {
    match t {
        ScriptHashType::Data => "data"@,
        ScriptHashType::Type => "type"@,
        ScriptHashType::Data1 => "data1"@,
    }
}

/// Law: every hash-type variant's tag decodes back to the same variant.
pub proof fn lemma_hash_type_tag_round_trip(t: ScriptHashType)
    ensures
        hash_type_from_tag(hash_type_tag(t)) == Some(t),
{
}

/// Law: every tag byte outside the hash-type set is rejected.
pub proof fn lemma_hash_type_tag_rejected(value: u8)
    requires
        value >= 3,
    ensures
        hash_type_from_tag(value) is None,
{
}

/// The dependency kind of a cell dep.
#[derive(Default, Copy, Clone, Debug, Hash, PartialEq, Eq, Structural)]
pub enum DepType {
    /// The cell itself is the dep cell.
    #[default]
    Code,
    /// The cell is a dep group whose data lists the member cells.
    DepGroup,
}

/// The tag byte that stands for a dep-type variant in the binary layout.
pub open spec fn dep_type_tag(t: DepType) -> u8 {
    match t {
        DepType::Code => 0,
        DepType::DepGroup => 1,
    }
}

/// The dep-type variant a tag byte stands for, if any.
pub open spec fn dep_type_from_tag(value: u8) -> Option<DepType> {
    if value == 0 {
        Some(DepType::Code)
    } else if value == 1 {
        Some(DepType::DepGroup)
    } else {
        None
    }
}

impl DepType {
    /// The tag byte of this variant in the binary layout.
    pub fn encode_tag(&self) -> (r: u8)
        ensures
            r == dep_type_tag(*self),
    {
        match self {
            DepType::Code => 0,
            DepType::DepGroup => 1,
        }
    }

    /// The variant a tag byte stands for; any byte outside the defined
    /// set is rejected, never silently aliased.
    pub fn decode_tag(value: u8) -> (r: Result<Self, Error>)
        ensures
            match dep_type_from_tag(value) {
                Some(t) => r == Ok::<Self, Error>(t),
                None => r == Err::<Self, Error>(Error::InvalidTag),
            },
    {
        if value == 0 {
            Ok(DepType::Code)
        } else if value == 1 {
            Ok(DepType::DepGroup)
        } else {
            Err(Error::InvalidTag)
        }
    }
}

/// Law: every dep-type variant's tag decodes back to the same variant.
pub proof fn lemma_dep_type_tag_round_trip(t: DepType)
    ensures
        dep_type_from_tag(dep_type_tag(t)) == Some(t),
{
}

/// Law: every tag byte outside the dep-type set is rejected.
pub proof fn lemma_dep_type_tag_rejected(value: u8)
    requires
        value >= 2,
    ensures
        dep_type_from_tag(value) is None,
{
}

/// Copies a 32-byte hash out of a byte slice.
pub(crate) fn read_hash(b: &[u8], off: usize) -> (r: [u8; 32])
    requires
        off + 32 <= b@.len(),
        b@.len() <= usize::MAX,
    ensures
        r@ == b@.subrange(off as int, off as int + 32),
{
    let mut hash = [0u8; 32];
    let mut i: usize = 0;
    while i < 32
        invariant
            i <= 32,
            off + 32 <= b@.len(),
            b@.len() <= usize::MAX,
            forall|j: int| 0 <= j < i ==> hash@[j] == b@[off + j],
        decreases 32 - i,
    {
        hash[i] = b[off + i];
        i = i + 1;
    }
    proof {
        assert(hash@ =~= b@.subrange(off as int, off as int + 32));
    }
    hash
}

/// Reference to a cell via transaction hash and output index.
#[derive(Default, Clone, Debug, Hash, PartialEq, Eq)]
pub struct OutPoint {
    /// Transaction hash in which the cell is an output.
    pub tx_hash: H256,
    /// The output index of the cell in that transaction.
    pub index: Uint32,
}

/// The canonical 36-byte encoding of an out point: the transaction hash
/// followed by the little-endian index.
pub open spec fn out_point_enc(p: OutPoint) -> Seq<u8> {
    p.tx_hash.0@ + spec_u32_to_le_bytes(p.index.0)
}

impl OutPoint {
    /// Serializes to the canonical 36-byte encoding.
    pub fn to_binary(&self) -> (r: Vec<u8>)
        ensures
            r@ == out_point_enc(*self),
            r@.len() == 36,
    {
        let mut out: Vec<u8> = Vec::new();
        out.extend_from_slice(self.tx_hash.0.as_slice());
        let mut idx = u32_to_le_bytes(self.index.0);
        out.append(&mut idx);
        proof {
            lemma_auto_spec_u32_to_from_le_bytes();
        }
        out
    }

    /// Deserializes the canonical 36-byte encoding; exactly the 36-byte
    /// inputs are accepted, and the accepted input is byte-identical to
    /// the re-encoding of the result.
    pub fn from_binary(b: &[u8]) -> (r: Result<Self, Error>)
        ensures
            match r {
                Ok(p) => b@.len() == 36 && b@ == out_point_enc(p),
                Err(e) => e == Error::ParseBytes && b@.len() != 36,
            },
    {
        if b.len() != 36 {
            return Err(Error::ParseBytes);
        }
        let mut tx_hash = [0u8; 32];
        let mut i: usize = 0;
        while i < 32
            invariant
                i <= 32,
                b@.len() == 36,
                forall|j: int| 0 <= j < i ==> tx_hash@[j] == b@[j],
            decreases 32 - i,
        {
            tx_hash[i] = b[i];
            i = i + 1;
        }
        let index = u32_from_le_bytes(slice_subrange(b, 32, 36));
        let p = OutPoint { tx_hash: H256(tx_hash), index: Uint32(index) };
        proof {
            lemma_auto_spec_u32_to_from_le_bytes();
            assert(tx_hash@ =~= b@.subrange(0, 32));
            assert(b@ =~= b@.subrange(0, 32) + b@.subrange(32, 36));
        }
        Ok(p)
    }
}

/// The input cell of a transaction.
#[derive(Default, Clone, Debug, Hash, PartialEq, Eq)]
pub struct CellInput {
    /// Restricts when the transaction can be committed into the chain.
    pub since: Uint64,
    /// Reference to the input cell.
    pub previous_output: OutPoint,
}

/// The canonical 44-byte encoding of a cell input: the little-endian
/// since field followed by the out point.
pub open spec fn cell_input_enc(i: CellInput) -> Seq<u8> {
    spec_u64_to_le_bytes(i.since.0) + out_point_enc(i.previous_output)
}

impl CellInput {
    /// Serializes to the canonical 44-byte encoding.
    pub fn to_binary(&self) -> (r: Vec<u8>)
        ensures
            r@ == cell_input_enc(*self),
            r@.len() == 44,
    {
        let mut out = u64_to_le_bytes(self.since.0);
        let mut p = self.previous_output.to_binary();
        out.append(&mut p);
        proof {
            lemma_auto_spec_u64_to_from_le_bytes();
        }
        out
    }

    /// Deserializes the canonical 44-byte encoding; exactly the 44-byte
    /// inputs are accepted, and the accepted input is byte-identical to
    /// the re-encoding of the result.
    pub fn from_binary(b: &[u8]) -> (r: Result<Self, Error>)
        ensures
            match r {
                Ok(i) => b@.len() == 44 && b@ == cell_input_enc(i),
                Err(e) => e == Error::ParseBytes && b@.len() != 44,
            },
    {
        if b.len() != 44 {
            return Err(Error::ParseBytes);
        }
        let since = u64_from_le_bytes(slice_subrange(b, 0, 8));
        let previous_output = match OutPoint::from_binary(slice_subrange(b, 8, 44)) {
            Ok(p) => p,
            Err(_) => { return Err(Error::ParseBytes) },
        };
        let i = CellInput { since: Uint64(since), previous_output };
        proof {
            lemma_auto_spec_u64_to_from_le_bytes();
            assert(b@ =~= b@.subrange(0, 8) + b@.subrange(8, 44));
        }
        Ok(i)
    }
}

/// The cell dependency of a transaction.
#[derive(Default, Clone, Debug, Hash, PartialEq, Eq)]
pub struct CellDep {
    /// Reference to the cell.
    pub out_point: OutPoint,
    /// Dependency type.
    pub dep_type: DepType,
}

/// The canonical 37-byte encoding of a cell dep: the out point followed
/// by the dep-type tag byte.
pub open spec fn cell_dep_enc(d: CellDep) -> Seq<u8> {
    out_point_enc(d.out_point) + seq![dep_type_tag(d.dep_type)]
}

impl CellDep {
    /// Serializes to the canonical 37-byte encoding.
    pub fn to_binary(&self) -> (r: Vec<u8>)
        ensures
            r@ == cell_dep_enc(*self),
            r@.len() == 37,
    {
        let mut out = self.out_point.to_binary();
        out.push(self.dep_type.encode_tag());
        out
    }

    /// Deserializes the canonical 37-byte encoding; exactly the 37-byte
    /// inputs whose tag byte is defined are accepted, and the accepted
    /// input is byte-identical to the re-encoding of the result.
    pub fn from_binary(b: &[u8]) -> (r: Result<Self, Error>)
        ensures
            match r {
                Ok(d) => b@.len() == 37 && b@ == cell_dep_enc(d),
                Err(e) => (e == Error::ParseBytes && b@.len() != 37) || (e == Error::InvalidTag
                    && b@.len() == 37 && dep_type_from_tag(b@[36]) is None),
            },
    {
        if b.len() != 37 {
            return Err(Error::ParseBytes);
        }
        let out_point = match OutPoint::from_binary(slice_subrange(b, 0, 36)) {
            Ok(p) => p,
            Err(_) => { return Err(Error::ParseBytes) },
        };
        let dep_type = match DepType::decode_tag(*vstd::slice::slice_index_get(b, 36)) {
            Ok(t) => t,
            Err(e) => { return Err(e) },
        };
        let d = CellDep { out_point, dep_type };
        proof {
            assert(b@ =~= b@.subrange(0, 36) + seq![b@[36]]);
        }
        Ok(d)
    }
}

/// The length-prefixed encoding of a variable-length byte string: a
/// little-endian byte count followed by the raw bytes.
pub open spec fn bytes_enc(b: Seq<u8>) -> Seq<u8> {
    spec_u32_to_le_bytes(b.len() as u32) + b
}

/// Describes the lock script and type script for a cell.
#[derive(Default, Clone, Debug, Hash, PartialEq, Eq)]
pub struct Script {
    /// The hash used to match the script code.
    pub code_hash: H256,
    /// Specifies how to use the `code_hash` to match the script code.
    pub hash_type: ScriptHashType,
    /// Arguments for the script; may be empty.
    pub args: GraphqlBytes,
}

/// The byte length of a script's canonical encoding.
pub open spec fn script_size(s: Script) -> int {
    53 + s.args.0@.len() as int
}

/// Whether a script is encodable: its canonical encoding's length fits
/// the 32-bit size field.
pub open spec fn script_wf(s: Script) -> bool {
    script_size(s) <= u32::MAX
}

/// The canonical encoding of a script: a full size, three field offsets,
/// then the code hash, the hash-type tag and the length-prefixed args.
pub open spec fn script_enc(s: Script) -> Seq<u8> {
    spec_u32_to_le_bytes(script_size(s) as u32) + spec_u32_to_le_bytes(16u32)
        + spec_u32_to_le_bytes(48u32) + spec_u32_to_le_bytes(49u32) + s.code_hash.0@ + seq![
        hash_type_tag(s.hash_type),
    ] + bytes_enc(s.args.0@)
}

/// A script's canonical encoding is exactly `script_size` bytes long.
pub proof fn lemma_script_enc_len(s: Script)
    ensures
        script_enc(s).len() == script_size(s),
{
    lemma_auto_spec_u32_to_from_le_bytes();
}

impl Script {
    /// Serializes to the canonical encoding.
    pub fn to_binary(&self) -> (r: Vec<u8>)
        requires
            script_wf(*self),
        ensures
            r@ == script_enc(*self),
            r@.len() == script_size(*self),
    {
        let total = (53 + self.args.0.len()) as u32;
        let mut out = u32_to_le_bytes(total);
        let mut t = u32_to_le_bytes(16);
        out.append(&mut t);
        let mut t = u32_to_le_bytes(48);
        out.append(&mut t);
        let mut t = u32_to_le_bytes(49);
        out.append(&mut t);
        out.extend_from_slice(self.code_hash.0.as_slice());
        out.push(self.hash_type.encode_tag());
        let mut t = u32_to_le_bytes(self.args.0.len() as u32);
        out.append(&mut t);
        out.extend_from_slice(self.args.0.as_slice());
        proof {
            lemma_auto_spec_u32_to_from_le_bytes();
            assert(out@ =~= script_enc(*self));
        }
        out
    }

    /// Deserializes the canonical encoding; exactly the canonical
    /// encodings of scripts are accepted, and the accepted input is
    /// byte-identical to the re-encoding of the result.
    pub fn from_binary(b: &[u8]) -> (r: Result<Self, Error>)
        ensures
            match r {
                Ok(s) => script_wf(s) && b@ == script_enc(s),
                Err(e) => (e == Error::ParseBytes || e == Error::InvalidTag) && (forall|s: Script|
                    script_wf(s) ==> b@ != #[trigger] script_enc(s)),
            },
    {
        proof {
            lemma_auto_spec_u32_to_from_le_bytes();
        }
        if b.len() < 53 {
            proof {
                assert forall|s: Script| script_wf(s) implies b@ != #[trigger] script_enc(s) by {
                    lemma_script_enc_len(s);
                }
            }
            return Err(Error::ParseBytes);
        }
        let total = u32_from_le_bytes(slice_subrange(b, 0, 4));
        if !(total as u64 == b.len() as u64) {
            proof {
                assert forall|s: Script| script_wf(s) implies b@ != #[trigger] script_enc(s) by {
                    if b@ == script_enc(s) {
                        lemma_script_enc_len(s);
                        assert(b@.subrange(0, 4) == spec_u32_to_le_bytes(script_size(s) as u32));
                    }
                }
            }
            return Err(Error::ParseBytes);
        }
        let o0 = u32_from_le_bytes(slice_subrange(b, 4, 8));
        let o1 = u32_from_le_bytes(slice_subrange(b, 8, 12));
        let o2 = u32_from_le_bytes(slice_subrange(b, 12, 16));
        if !(o0 == 16 && o1 == 48 && o2 == 49) {
            proof {
                assert forall|s: Script| script_wf(s) implies b@ != #[trigger] script_enc(s) by {
                    if b@ == script_enc(s) {
                        assert(b@.subrange(4, 8) == spec_u32_to_le_bytes(16u32));
                        assert(b@.subrange(8, 12) == spec_u32_to_le_bytes(48u32));
                        assert(b@.subrange(12, 16) == spec_u32_to_le_bytes(49u32));
                    }
                }
            }
            return Err(Error::ParseBytes);
        }
        let code_hash = read_hash(b, 16);
        let tag = *vstd::slice::slice_index_get(b, 48);
        let hash_type = match ScriptHashType::decode_tag(tag) {
            Ok(t) => t,
            Err(e) => {
                proof {
                    assert forall|s: Script| script_wf(s) implies b@ != #[trigger] script_enc(
                        s,
                    ) by {
                        if b@ == script_enc(s) {
                            assert(b@[48] == hash_type_tag(s.hash_type));
                        }
                    }
                }
                return Err(e);
            },
        };
        let cnt = u32_from_le_bytes(slice_subrange(b, 49, 53));
        if !(cnt as u64 == (b.len() - 53) as u64) {
            proof {
                assert forall|s: Script| script_wf(s) implies b@ != #[trigger] script_enc(s) by {
                    if b@ == script_enc(s) {
                        lemma_script_enc_len(s);
                        assert(b@.subrange(49, 53) == spec_u32_to_le_bytes(
                            s.args.0@.len() as u32,
                        ));
                    }
                }
            }
            return Err(Error::ParseBytes);
        }
        let args = vstd::slice::slice_to_vec(slice_subrange(b, 53, b.len()));
        let s = Script { code_hash: H256(code_hash), hash_type, args: GraphqlBytes(args) };
        proof {
            assert(b@ =~= b@.subrange(0, 4) + b@.subrange(4, 8) + b@.subrange(8, 12) + b@.subrange(
                12,
                16,
            ) + b@.subrange(16, 48) + seq![b@[48]] + b@.subrange(49, 53) + b@.subrange(
                53,
                b@.len() as int,
            ));
            assert(b@ =~= script_enc(s));
        }
        Ok(s)
    }
}

/// The encoding of an optional type script: absent is the empty byte
/// sequence, present is the script's own encoding.
pub open spec fn script_opt_enc(o: Option<Script>) -> Seq<u8> {
    match o {
        Option::None => Seq::empty(),
        Option::Some(s) => script_enc(s),
    }
}

/// The fields of an output cell except the cell data.
#[derive(Default, Clone, Debug, Hash, PartialEq, Eq)]
pub struct CellOutput {
    /// The cell capacity: the value of the cell in base units, also the
    /// upper limit of the storage the cell occupies.
    pub capacity: Uint64,
    /// The lock script.
    pub lock: Script,
    /// The optional type script.
    pub type_: Option<Script>,
}

/// The byte length of a cell output's canonical encoding.
pub open spec fn cell_output_size(o: CellOutput) -> int {
    24 + script_size(o.lock) + (match o.type_ {
        Option::None => 0,
        Option::Some(s) => script_size(s),
    })
}

/// Whether a cell output is encodable: its canonical encoding's length
/// fits the 32-bit size field.
pub open spec fn cell_output_wf(o: CellOutput) -> bool {
    cell_output_size(o) <= u32::MAX
}

/// The canonical encoding of a cell output: a full size, three field
/// offsets, then the little-endian capacity, the lock script and the
/// optional type script.
pub open spec fn cell_output_enc(o: CellOutput) -> Seq<u8> {
    spec_u32_to_le_bytes(cell_output_size(o) as u32) + spec_u32_to_le_bytes(16u32)
        + spec_u32_to_le_bytes(24u32) + spec_u32_to_le_bytes((24 + script_size(o.lock)) as u32)
        + spec_u64_to_le_bytes(o.capacity.0) + script_enc(o.lock) + script_opt_enc(o.type_)
}

/// A cell output's canonical encoding is exactly `cell_output_size`
/// bytes long.
pub proof fn lemma_cell_output_enc_len(o: CellOutput)
    ensures
        cell_output_enc(o).len() == cell_output_size(o),
{
    lemma_auto_spec_u32_to_from_le_bytes();
    lemma_auto_spec_u64_to_from_le_bytes();
    lemma_script_enc_len(o.lock);
    match o.type_ {
        Option::None => {},
        Option::Some(s) => {
            lemma_script_enc_len(s);
        },
    }
}

/// How a cell output's canonical encoding splits into its header and
/// field bytes.
pub proof fn lemma_cell_output_enc_parts(o: CellOutput, b: Seq<u8>)
    requires
        b == cell_output_enc(o),
    ensures
        b.len() == cell_output_size(o),
        24 + script_size(o.lock) <= b.len(),
        b.subrange(0, 4) == spec_u32_to_le_bytes(cell_output_size(o) as u32),
        b.subrange(4, 8) == spec_u32_to_le_bytes(16u32),
        b.subrange(8, 12) == spec_u32_to_le_bytes(24u32),
        b.subrange(12, 16) == spec_u32_to_le_bytes((24 + script_size(o.lock)) as u32),
        b.subrange(16, 24) == spec_u64_to_le_bytes(o.capacity.0),
        b.subrange(24, 24 + script_size(o.lock)) == script_enc(o.lock),
        b.subrange(24 + script_size(o.lock), b.len() as int) == script_opt_enc(o.type_),
{
    lemma_auto_spec_u32_to_from_le_bytes();
    lemma_auto_spec_u64_to_from_le_bytes();
    lemma_cell_output_enc_len(o);
    lemma_script_enc_len(o.lock);
    match o.type_ {
        Option::None => {},
        Option::Some(s) => {
            lemma_script_enc_len(s);
        },
    }
    assert(b.subrange(0, 4) =~= spec_u32_to_le_bytes(cell_output_size(o) as u32));
    assert(b.subrange(4, 8) =~= spec_u32_to_le_bytes(16u32));
    assert(b.subrange(8, 12) =~= spec_u32_to_le_bytes(24u32));
    assert(b.subrange(12, 16) =~= spec_u32_to_le_bytes((24 + script_size(o.lock)) as u32));
    assert(b.subrange(16, 24) =~= spec_u64_to_le_bytes(o.capacity.0));
    assert(b.subrange(24, 24 + script_size(o.lock)) =~= script_enc(o.lock));
    assert(b.subrange(24 + script_size(o.lock), b.len() as int) =~= script_opt_enc(o.type_));
}

impl CellOutput {
    /// Serializes to the canonical encoding.
    pub fn to_binary(&self) -> (r: Vec<u8>)
        requires
            cell_output_wf(*self),
        ensures
            r@ == cell_output_enc(*self),
            r@.len() == cell_output_size(*self),
    {
        proof {
            lemma_script_enc_len(self.lock);
            if self.type_ is Some {
                lemma_script_enc_len(self.type_->0);
            }
        }
        let mut lock_bin = self.lock.to_binary();
        let total: u32 = match &self.type_ {
            Option::None => (24 + lock_bin.len()) as u32,
            Option::Some(t) => (24 + lock_bin.len() + (53 + t.args.0.len())) as u32,
        };
        let mut out = u32_to_le_bytes(total);
        let mut t = u32_to_le_bytes(16);
        out.append(&mut t);
        let mut t = u32_to_le_bytes(24);
        out.append(&mut t);
        let mut t = u32_to_le_bytes((24 + lock_bin.len()) as u32);
        out.append(&mut t);
        let mut c = u64_to_le_bytes(self.capacity.0);
        out.append(&mut c);
        out.append(&mut lock_bin);
        match &self.type_ {
            Option::None => {},
            Option::Some(ts) => {
                let mut tb = ts.to_binary();
                out.append(&mut tb);
            },
        }
        proof {
            lemma_auto_spec_u32_to_from_le_bytes();
            assert(out@ =~= cell_output_enc(*self));
            lemma_cell_output_enc_len(*self);
        }
        out
    }

    /// Deserializes the canonical encoding; exactly the canonical
    /// encodings of cell outputs are accepted, the accepted input is
    /// byte-identical to the re-encoding of the result, and a record
    /// with no type-script bytes yields an absent type script.
    #[verifier::rlimit(100)]
    pub fn from_binary(b: &[u8]) -> (r: Result<Self, Error>)
        ensures
            match r {
                Ok(o) => cell_output_wf(o) && b@ == cell_output_enc(o),
                Err(e) => (e == Error::ParseBytes || e == Error::InvalidTag) && (forall|
                    o: CellOutput,
                |
                    cell_output_wf(o) ==> b@ != #[trigger] cell_output_enc(o)),
            },
    {
        proof {
            lemma_auto_spec_u32_to_from_le_bytes();
        }
        if b.len() < 24 {
            proof {
                assert forall|o: CellOutput| cell_output_wf(o) implies b@ != #[trigger] cell_output_enc(
                    o,
                ) by {
                    if b@ == cell_output_enc(o) {
                        lemma_cell_output_enc_parts(o, b@);
                    }
                }
            }
            return Err(Error::ParseBytes);
        }
        let total = u32_from_le_bytes(slice_subrange(b, 0, 4));
        if !(total as u64 == b.len() as u64) {
            proof {
                assert forall|o: CellOutput| cell_output_wf(o) implies b@ != #[trigger] cell_output_enc(
                    o,
                ) by {
                    if b@ == cell_output_enc(o) {
                        lemma_cell_output_enc_parts(o, b@);
                    }
                }
            }
            return Err(Error::ParseBytes);
        }
        let o0 = u32_from_le_bytes(slice_subrange(b, 4, 8));
        let o1 = u32_from_le_bytes(slice_subrange(b, 8, 12));
        let o2 = u32_from_le_bytes(slice_subrange(b, 12, 16));
        if !(o0 == 16 && o1 == 24) {
            proof {
                assert forall|o: CellOutput| cell_output_wf(o) implies b@ != #[trigger] cell_output_enc(
                    o,
                ) by {
                    if b@ == cell_output_enc(o) {
                        lemma_cell_output_enc_parts(o, b@);
                    }
                }
            }
            return Err(Error::ParseBytes);
        }
        let off2 = o2 as usize;
        if !(24 <= off2 && off2 <= b.len()) {
            proof {
                assert forall|o: CellOutput| cell_output_wf(o) implies b@ != #[trigger] cell_output_enc(
                    o,
                ) by {
                    if b@ == cell_output_enc(o) {
                        lemma_cell_output_enc_parts(o, b@);
                    }
                }
            }
            return Err(Error::ParseBytes);
        }
        let capacity = u64_from_le_bytes(slice_subrange(b, 16, 24));
        let lock = match Script::from_binary(slice_subrange(b, 24, off2)) {
            Ok(s) => s,
            Err(e) => {
                proof {
                    assert forall|o: CellOutput| cell_output_wf(o) implies b@
                        != #[trigger] cell_output_enc(o) by {
                        if b@ == cell_output_enc(o) {
                            lemma_cell_output_enc_parts(o, b@);
                            assert(off2 as int == 24 + script_size(o.lock));
                            assert(script_wf(o.lock));
                        }
                    }
                }
                return Err(e);
            },
        };
        let type_: Option<Script> = if off2 == b.len() {
            Option::None
        } else {
            match Script::from_binary(slice_subrange(b, off2, b.len())) {
                Ok(s) => Option::Some(s),
                Err(e) => {
                    proof {
                        assert forall|o: CellOutput| cell_output_wf(o) implies b@
                            != #[trigger] cell_output_enc(o) by {
                            if b@ == cell_output_enc(o) {
                                lemma_cell_output_enc_parts(o, b@);
                                assert(off2 as int == 24 + script_size(o.lock));
                                match o.type_ {
                                    Option::None => {
                                        assert(b@.len() == 24 + script_size(o.lock));
                                    },
                                    Option::Some(ts) => {
                                        assert(b@.subrange(off2 as int, b@.len() as int)
                                            == script_enc(ts));
                                        assert(script_wf(ts));
                                    },
                                }
                            }
                        }
                    }
                    return Err(e);
                },
            }
        };
        let o = CellOutput { capacity: Uint64(capacity), lock, type_ };
        proof {
            lemma_auto_spec_u64_to_from_le_bytes();
            lemma_script_enc_len(o.lock);
            if o.type_ is Some {
                lemma_script_enc_len(o.type_->0);
            }
            assert(b@ =~= b@.subrange(0, 4) + b@.subrange(4, 8) + b@.subrange(8, 12) + b@.subrange(
                12,
                16,
            ) + b@.subrange(16, 24) + b@.subrange(24, off2 as int) + b@.subrange(
                off2 as int,
                b@.len() as int,
            ));
            assert(b@ =~= cell_output_enc(o));
        }
        Ok(o)
    }
}

} // verus!
