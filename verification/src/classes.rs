//! Contract class bodies and their wire form.
//!
//! Class bodies are large and immutable, so the codec compresses them: the
//! big variable-length parts are serialized into buffers and compressed as a
//! whole, while small structured parts stay raw. Text and raw numeric blobs
//! are carried as byte strings.

use vstd::prelude::*;
use crate::codec::{
    dec_bytes,
    dec_entry_point_selector,
    dec_u64,
    dec_u8,
    dec_vec_felt,
    enc_bytes,
    enc_entry_point_selector,
    enc_u64,
    enc_u8,
    enc_vec_felt,
    lemma_dec_enc_bytes,
    lemma_dec_enc_entry_point_selector,
    lemma_dec_enc_u64,
    lemma_dec_enc_vec_felt,
    lemma_enc_felt_len,
    lemma_sub_of_sub,
    read_bytes,
    read_u64,
    read_u8,
    read_vec_felt,
    write_bytes,
    write_u64,
    write_u8,
    write_vec_felt,
};
use crate::compress::{compress, decompress, zstd_inflate, MAX_DECOMPRESSED_SIZE};
use crate::core_types::{EntryPointSelector, Felt, StorageError};
use crate::list::{
    dec_elem_list,
    dec_list,
    enc_elem_list,
    enc_list,
    lemma_dec_enc_list,
    lemma_enc_elem_list_snoc,
};
use crate::varint::{read_varint, varint_dec, varint_enc, write_varint};

verus! {

// ---------------------------------------------------------------------------
// Entry points of the current class format.
// ---------------------------------------------------------------------------
/// An entry point of a current-format class: a function index and the
/// selector dispatched to it.
#[derive(Clone, Copy, Debug, PartialEq, Eq, Structural)]
pub struct EntryPoint {
    pub function_idx: u64,
    pub selector: EntryPointSelector,
}

/// An entry point is its function index, widened to 64 bits, then its
/// selector.
pub open spec fn enc_entry_point(e: EntryPoint) -> Seq<u8> {
    enc_u64(e.function_idx) + enc_entry_point_selector(e.selector)
}

/// Reads an entry point.
pub open spec fn dec_entry_point(s: Seq<u8>, i: int) -> Option<(EntryPoint, int)> {
    match dec_u64(s, i) {
        None => None,
        Some((function_idx, j)) => match dec_entry_point_selector(s, j) {
            None => None,
            Some((selector, k)) => Some((EntryPoint { function_idx, selector }, k)),
        },
    }
}

/// Round trip for one entry point.
pub proof fn lemma_dec_enc_entry_point(s: Seq<u8>, i: int, e: EntryPoint)
    requires
        0 <= i,
        i + 40 <= s.len(),
        s.subrange(i, i + 40) == enc_entry_point(e),
    ensures
        dec_entry_point(s, i) == Some((e, i + 40)),
{
    crate::bebytes::lemma_be_enc_len(e.function_idx as nat, 8);
    lemma_enc_felt_len(e.selector.0);
    lemma_sub_of_sub(s, i, 40, 0, 8);
    assert(s.subrange(i, i + 8) =~= enc_u64(e.function_idx));
    lemma_dec_enc_u64(s, i, e.function_idx);
    lemma_sub_of_sub(s, i, 40, 8, 40);
    assert(s.subrange(i + 8, i + 40) =~= enc_entry_point_selector(e.selector));
    lemma_dec_enc_entry_point_selector(s, i + 8, e.selector);
}

/// The entry point codec as a function value.
pub open spec fn enc_fn_entry_point() -> spec_fn(EntryPoint) -> Seq<u8> {
    |e: EntryPoint| enc_entry_point(e)
}

/// The entry point decoder as a function value.
pub open spec fn dec_fn_entry_point() -> spec_fn(Seq<u8>, int) -> Option<(EntryPoint, int)> {
    |s: Seq<u8>, i: int| dec_entry_point(s, i)
}

/// The encoding of an entry point sequence.
pub open spec fn enc_entry_point_list(s: Seq<EntryPoint>) -> Seq<u8> {
    enc_list(enc_fn_entry_point(), s)
}

/// Reads an entry point sequence.
pub open spec fn dec_entry_point_list(s: Seq<u8>, i: int) -> Option<(Seq<EntryPoint>, int)> {
    dec_list(dec_fn_entry_point(), s, i)
}

/// Appends a length-prefixed entry point sequence.
pub fn write_entry_point_list(out: &mut Vec<u8>, data: &Vec<EntryPoint>)
    ensures
        final(out)@ == old(out)@ + enc_entry_point_list(data@),
{
    write_varint(out, data.len() as u64);
    let mut k: usize = 0;
    while k < data.len()
        invariant
            k <= data@.len(),
            out@ == old(out)@ + varint_enc(data@.len() as u64) + enc_elem_list(
                enc_fn_entry_point(),
                data@.subrange(0, k as int),
            ),
        decreases data@.len() - k,
    {
        let e = data[k];
        write_u64(out, e.function_idx);
        e.selector.serialize_into(out);
        k = k + 1;
        proof {
            assert(data@.subrange(0, k as int) =~= data@.subrange(0, k - 1).push(data@[k - 1]));
            lemma_enc_elem_list_snoc(enc_fn_entry_point(), data@.subrange(0, k - 1), data@[k - 1]);
            assert(out@ =~= old(out)@ + varint_enc(data@.len() as u64) + enc_elem_list(
                enc_fn_entry_point(),
                data@.subrange(0, k as int),
            ));
        }
    }
    assert(data@.subrange(0, data@.len() as int) =~= data@);
    assert(out@ =~= old(out)@ + enc_entry_point_list(data@));
}

/// Reads a length-prefixed entry point sequence, advancing the position on
/// success.
pub fn read_entry_point_list(v: &Vec<u8>, pos: &mut usize) -> (r: Option<Vec<EntryPoint>>)
    ensures
        match dec_entry_point_list(v@, *old(pos) as int) {
            Some((data, j)) => {
                &&& r matches Some(out) && out@ == data
                &&& *final(pos) == j
            },
            None => r is None,
        },
{
    let n = match read_varint(v, pos) {
        Some(n) => n,
        None => {
            return None;
        },
    };
    let mut res: Vec<EntryPoint> = Vec::new();
    let mut k: u64 = 0;
    while k < n
        invariant
            k <= n,
            res@.len() == k,
            dec_entry_point_list(v@, *old(pos) as int) == (match dec_elem_list(
                dec_fn_entry_point(),
                v@,
                *pos as int,
                (n - k) as nat,
            ) {
                Some((rest, end)) => Some::<(Seq<EntryPoint>, int)>((res@ + rest, end)),
                None => None::<(Seq<EntryPoint>, int)>,
            }),
        decreases n - k,
    {
        let ghost res_before = res@;
        let function_idx = match read_u64(v, pos) {
            Some(x) => x,
            None => {
                return None;
            },
        };
        let selector = match EntryPointSelector::deserialize_from(v, pos) {
            Some(x) => x,
            None => {
                return None;
            },
        };
        let e = EntryPoint { function_idx, selector };
        res.push(e);
        k = k + 1;
        proof {
            match dec_elem_list(dec_fn_entry_point(), v@, *pos as int, (n - k) as nat) {
                Some((rest, end)) => {
                    assert(res_before + (seq![e] + rest) =~= res@ + rest);
                },
                None => {},
            }
        }
    }
    assert(res@ + Seq::<EntryPoint>::empty() =~= res@);
    Some(res)
}

/// Round trip for entry point sequences.
pub proof fn lemma_dec_enc_entry_point_list(s: Seq<u8>, i: int, data: Seq<EntryPoint>)
    requires
        data.len() <= u64::MAX,
        0 <= i,
        i + enc_entry_point_list(data).len() <= s.len(),
        s.subrange(i, i + enc_entry_point_list(data).len()) == enc_entry_point_list(data),
    ensures
        dec_entry_point_list(s, i) == Some((data, i + enc_entry_point_list(data).len())),
{
    assert forall|x: EntryPoint, ii: int|
        true && 0 <= ii && ii + (#[trigger] enc_fn_entry_point()(x)).len() <= s.len()
            && s.subrange(ii, ii + enc_fn_entry_point()(x).len()) == enc_fn_entry_point()(x)
        implies #[trigger] dec_fn_entry_point()(s, ii) == Some::<(EntryPoint, int)>(
        (x, ii + enc_fn_entry_point()(x).len()),
    ) by {
        crate::bebytes::lemma_be_enc_len(x.function_idx as nat, 8);
        lemma_enc_felt_len(x.selector.0);
        lemma_dec_enc_entry_point(s, ii, x);
    }
    lemma_dec_enc_list(
        dec_fn_entry_point(),
        enc_fn_entry_point(),
        |x: EntryPoint| true,
        s,
        i,
        data,
    );
}

/// The entry points of a current-format class, grouped by type.
#[derive(Clone, Debug, PartialEq, Eq)]
pub struct EntryPointByType {
    pub constructor: Vec<EntryPoint>,
    pub external: Vec<EntryPoint>,
    pub l1handler: Vec<EntryPoint>,
}

/// The mathematical view of the grouped entry points.
#[verifier::ext_equal]
pub struct EntryPointByTypeView {
    pub constructor: Seq<EntryPoint>,
    pub external: Seq<EntryPoint>,
    pub l1handler: Seq<EntryPoint>,
}

impl View for EntryPointByType {
    type V = EntryPointByTypeView;

    open spec fn view(&self) -> EntryPointByTypeView {
        EntryPointByTypeView {
            constructor: self.constructor@,
            external: self.external@,
            l1handler: self.l1handler@,
        }
    }
}

impl EntryPointByTypeView {
    /// Lengths fit the wire format's 64-bit counts.
    pub open spec fn wf(self) -> bool {
        &&& self.constructor.len() <= u64::MAX
        &&& self.external.len() <= u64::MAX
        &&& self.l1handler.len() <= u64::MAX
    }
}

/// The grouped entry points: the three sequences in order.
pub open spec fn enc_entry_point_by_type(e: EntryPointByTypeView) -> Seq<u8> {
    enc_entry_point_list(e.constructor) + enc_entry_point_list(e.external) + enc_entry_point_list(
        e.l1handler,
    )
}

/// Reads the grouped entry points.
pub open spec fn dec_entry_point_by_type(s: Seq<u8>, i: int) -> Option<
    (EntryPointByTypeView, int),
> {
    match dec_entry_point_list(s, i) {
        None => None,
        Some((constructor, a)) => match dec_entry_point_list(s, a) {
            None => None,
            Some((external, b)) => match dec_entry_point_list(s, b) {
                None => None,
                Some((l1handler, c)) => Some(
                    (EntryPointByTypeView { constructor, external, l1handler }, c),
                ),
            },
        },
    }
}

impl EntryPointByType {
    /// Appends the grouped entry points.
    pub fn serialize_into(&self, out: &mut Vec<u8>)
        ensures
            final(out)@ == old(out)@ + enc_entry_point_by_type(self@),
    {
        write_entry_point_list(out, &self.constructor);
        write_entry_point_list(out, &self.external);
        write_entry_point_list(out, &self.l1handler);
        assert(out@ =~= old(out)@ + enc_entry_point_by_type(self@));
    }

    /// Reads grouped entry points, advancing the position on success.
    pub fn deserialize_from(v: &Vec<u8>, pos: &mut usize) -> (r: Option<EntryPointByType>)
        ensures
            match dec_entry_point_by_type(v@, *old(pos) as int) {
                Some((e, j)) => {
                    &&& r matches Some(out) && out@ == e
                    &&& *final(pos) == j
                },
                None => r is None,
            },
    {
        let constructor = match read_entry_point_list(v, pos) {
            Some(x) => x,
            None => {
                return None;
            },
        };
        let external = match read_entry_point_list(v, pos) {
            Some(x) => x,
            None => {
                return None;
            },
        };
        let l1handler = match read_entry_point_list(v, pos) {
            Some(x) => x,
            None => {
                return None;
            },
        };
        let e = EntryPointByType { constructor, external, l1handler };
        proof {
            let got = dec_entry_point_by_type(v@, *old(pos) as int)->0;
            assert(e@ =~= got.0);
        }
        Some(e)
    }
}

/// Round trip for the grouped entry points.
pub proof fn lemma_dec_enc_entry_point_by_type(s: Seq<u8>, i: int, e: EntryPointByTypeView)
    requires
        e.wf(),
        0 <= i,
        i + enc_entry_point_by_type(e).len() <= s.len(),
        s.subrange(i, i + enc_entry_point_by_type(e).len()) == enc_entry_point_by_type(e),
    ensures
        dec_entry_point_by_type(s, i) == Some((e, i + enc_entry_point_by_type(e).len())),
{
    let e1 = enc_entry_point_list(e.constructor);
    let e2 = enc_entry_point_list(e.external);
    let e3 = enc_entry_point_list(e.l1handler);
    let total = enc_entry_point_by_type(e).len() as int;
    let a = i + e1.len() as int;
    let b = a + e2.len() as int;
    lemma_sub_of_sub(s, i, total, 0, e1.len() as int);
    assert(s.subrange(i, a) =~= e1);
    lemma_dec_enc_entry_point_list(s, i, e.constructor);
    lemma_sub_of_sub(s, i, total, e1.len() as int, (e1.len() + e2.len()) as int);
    assert(s.subrange(a, b) =~= e2);
    lemma_dec_enc_entry_point_list(s, a, e.external);
    lemma_sub_of_sub(s, i, total, (e1.len() + e2.len()) as int, total);
    assert(s.subrange(b, i + total) =~= e3);
    lemma_dec_enc_entry_point_list(s, b, e.l1handler);
}

// ---------------------------------------------------------------------------
// Optional byte strings, for class bodies that may lack an interface
// description.
// ---------------------------------------------------------------------------
/// An optional byte string: a presence byte, then the payload if present.
pub open spec fn enc_opt_bytes(o: Option<Seq<u8>>) -> Seq<u8> {
    match o {
        None => seq![0u8],
        Some(b) => seq![1u8] + enc_bytes(b),
    }
}

/// Reads an optional byte string: zero is absent, one is present, and any
/// other presence byte fails the read.
pub open spec fn dec_opt_bytes(s: Seq<u8>, i: int) -> Option<(Option<Seq<u8>>, int)> {
    match dec_u8(s, i) {
        None => None,
        Some((tag, j)) => if tag == 0 {
            Some((None, j))
        } else if tag == 1 {
            match dec_bytes(s, j) {
                None => None,
                Some((b, k)) => Some((Some(b), k)),
            }
        } else {
            None
        },
    }
}

/// Appends an optional byte string.
pub fn write_opt_bytes(out: &mut Vec<u8>, data: &Option<Vec<u8>>)
    ensures
        final(out)@ == old(out)@ + enc_opt_bytes(match data {
            Some(b) => Some(b@),
            None => None,
        }),
{
    match data {
        None => {
            write_u8(out, 0);
            assert(out@ =~= old(out)@ + enc_opt_bytes(None));
        },
        Some(b) => {
            write_u8(out, 1);
            write_bytes(out, b);
            assert(out@ =~= old(out)@ + enc_opt_bytes(Some(b@)));
        },
    }
}

/// Reads an optional byte string, advancing the position on success.
pub fn read_opt_bytes(v: &Vec<u8>, pos: &mut usize) -> (r: Option<Option<Vec<u8>>>)
    ensures
        match dec_opt_bytes(v@, *old(pos) as int) {
            Some((o, j)) => {
                &&& r matches Some(out) && (match o {
                    Some(b) => out matches Some(ob) && ob@ == b,
                    None => out is None,
                })
                &&& *final(pos) == j
            },
            None => r is None,
        },
{
    let tag = match read_u8(v, pos) {
        Some(t) => t,
        None => {
            return None;
        },
    };
    if tag == 0 {
        Some(None)
    } else if tag == 1 {
        match read_bytes(v, pos) {
            Some(b) => Some(Some(b)),
            None => None,
        }
    } else {
        None
    }
}

/// Round trip for optional byte strings.
pub proof fn lemma_dec_enc_opt_bytes(s: Seq<u8>, i: int, o: Option<Seq<u8>>)
    requires
        0 <= i,
        i + enc_opt_bytes(o).len() <= s.len(),
        s.subrange(i, i + enc_opt_bytes(o).len()) == enc_opt_bytes(o),
        o matches Some(b) ==> b.len() <= u64::MAX,
    ensures
        dec_opt_bytes(s, i) == Some((o, i + enc_opt_bytes(o).len())),
{
    assert(s[i] == enc_opt_bytes(o)[0]);
    match o {
        None => {},
        Some(b) => {
            let total = enc_opt_bytes(o).len() as int;
            lemma_sub_of_sub(s, i, total, 1, total);
            assert(s.subrange(i + 1, i + total) =~= enc_bytes(b));
            lemma_dec_enc_bytes(s, i + 1, b);
        },
    }
}
// ---------------------------------------------------------------------------
// Current-format class bodies, compressed as a whole.
// ---------------------------------------------------------------------------
/// A current-format contract class: its program, version text, entry points
/// and interface text. The program and interface dominate the size and are
/// compressed individually.
#[derive(Clone, Debug, PartialEq, Eq)]
pub struct SierraContractClass {
    pub sierra_program: Vec<Felt>,
    pub contract_class_version: Vec<u8>,
    pub entry_points_by_type: EntryPointByType,
    pub abi: Vec<u8>,
}

/// The mathematical view of a current-format class.
#[verifier::ext_equal]
pub struct SierraContractClassView {
    pub sierra_program: Seq<Felt>,
    pub contract_class_version: Seq<u8>,
    pub entry_points_by_type: EntryPointByTypeView,
    pub abi: Seq<u8>,
}

impl View for SierraContractClass {
    type V = SierraContractClassView;

    open spec fn view(&self) -> SierraContractClassView {
        SierraContractClassView {
            sierra_program: self.sierra_program@,
            contract_class_version: self.contract_class_version@,
            entry_points_by_type: self.entry_points_by_type@,
            abi: self.abi@,
        }
    }
}

impl SierraContractClassView {
    /// Lengths fit the wire format's 64-bit counts.
    pub open spec fn wf(self) -> bool {
        &&& self.sierra_program.len() <= u64::MAX
        &&& self.contract_class_version.len() <= u64::MAX
        &&& self.entry_points_by_type.wf()
        &&& self.abi.len() <= u64::MAX
    }
}

/// Reads a stored current-format class: the compressed program block, the
/// version text, the entry points, and the compressed interface block.
pub open spec fn dec_sierra_contract_class(s: Seq<u8>, i: int) -> Option<
    (SierraContractClassView, int),
> {
    match dec_bytes(s, i) {
        None => None,
        Some((c1, a)) => match zstd_inflate(c1, MAX_DECOMPRESSED_SIZE as nat) {
            None => None,
            Some(inner1) => match dec_vec_felt(inner1, 0) {
                None => None,
                Some((sierra_program, _p1)) => match dec_bytes(s, a) {
                    None => None,
                    Some((contract_class_version, b)) => match dec_entry_point_by_type(s, b) {
                        None => None,
                        Some((entry_points_by_type, c)) => match dec_bytes(s, c) {
                            None => None,
                            Some((c2, dd)) => match zstd_inflate(
                                c2,
                                MAX_DECOMPRESSED_SIZE as nat,
                            ) {
                                None => None,
                                Some(inner2) => match dec_bytes(inner2, 0) {
                                    None => None,
                                    Some((abi, _p2)) => Some(
                                        (
                                            SierraContractClassView {
                                                sierra_program,
                                                contract_class_version,
                                                entry_points_by_type,
                                                abi,
                                            },
                                            dd,
                                        ),
                                    ),
                                },
                            },
                        },
                    },
                },
            },
        },
    }
}

impl SierraContractClass {
    /// Serializes this class: the program serialized and compressed, the
    /// version text, the entry points, and the interface serialized and
    /// compressed.
    pub fn serialize_into(&self, out: &mut Vec<u8>) -> (r: Result<(), StorageError>)
        ensures
            match r {
                Ok(_) => exists|c1: Seq<u8>, c2: Seq<u8>|
                    #![trigger enc_bytes(c1), enc_bytes(c2)]
                    {
                        &&& final(out)@ == old(out)@ + enc_bytes(c1) + enc_bytes(
                            self@.contract_class_version,
                        ) + enc_entry_point_by_type(self@.entry_points_by_type) + enc_bytes(c2)
                        &&& c1.len() <= u64::MAX
                        &&& c2.len() <= u64::MAX
                        &&& enc_vec_felt(self@.sierra_program).len() <= MAX_DECOMPRESSED_SIZE
                            ==> zstd_inflate(c1, MAX_DECOMPRESSED_SIZE as nat) == Some(
                            enc_vec_felt(self@.sierra_program),
                        )
                        &&& enc_bytes(self@.abi).len() <= MAX_DECOMPRESSED_SIZE ==> zstd_inflate(
                            c2,
                            MAX_DECOMPRESSED_SIZE as nat,
                        ) == Some(enc_bytes(self@.abi))
                    },
                Err(e) => *final(out) == *old(out) && e == StorageError::Compression,
            },
    {
        let mut program_buf: Vec<u8> = Vec::new();
        write_vec_felt(&mut program_buf, &self.sierra_program);
        assert(program_buf@ =~= enc_vec_felt(self@.sierra_program));
        let c1 = match compress(&program_buf) {
            Some(c) => c,
            None => {
                return Err(StorageError::Compression);
            },
        };
        let mut abi_buf: Vec<u8> = Vec::new();
        write_bytes(&mut abi_buf, &self.abi);
        assert(abi_buf@ =~= enc_bytes(self@.abi));
        let c2 = match compress(&abi_buf) {
            Some(c) => c,
            None => {
                return Err(StorageError::Compression);
            },
        };
        let c1len: usize = c1.len();
        let c2len: usize = c2.len();
        write_bytes(out, &c1);
        write_bytes(out, &self.contract_class_version);
        self.entry_points_by_type.serialize_into(out);
        write_bytes(out, &c2);
        proof {
            assert(c1@.len() == c1len);
            assert(c2@.len() == c2len);
            assert(out@ =~= old(out)@ + enc_bytes(c1@) + enc_bytes(self@.contract_class_version)
                + enc_entry_point_by_type(self@.entry_points_by_type) + enc_bytes(c2@));
        }
        Ok(())
    }

    /// Reads a stored class, advancing the position on success.
    pub fn deserialize_from(v: &Vec<u8>, pos: &mut usize) -> (r: Option<SierraContractClass>)
        ensures
            match dec_sierra_contract_class(v@, *old(pos) as int) {
                Some((cls, j)) => {
                    &&& r matches Some(out) && out@ == cls
                    &&& *final(pos) == j
                },
                None => r is None,
            },
    {
        let c1 = match read_bytes(v, pos) {
            Some(c) => c,
            None => {
                return None;
            },
        };
        let inner1 = match decompress(&c1) {
            Some(d) => d,
            None => {
                return None;
            },
        };
        let mut p1: usize = 0;
        let sierra_program = match read_vec_felt(&inner1, &mut p1) {
            Some(x) => x,
            None => {
                return None;
            },
        };
        let contract_class_version = match read_bytes(v, pos) {
            Some(x) => x,
            None => {
                return None;
            },
        };
        let entry_points_by_type = match EntryPointByType::deserialize_from(v, pos) {
            Some(x) => x,
            None => {
                return None;
            },
        };
        let c2 = match read_bytes(v, pos) {
            Some(c) => c,
            None => {
                return None;
            },
        };
        let inner2 = match decompress(&c2) {
            Some(d) => d,
            None => {
                return None;
            },
        };
        let mut p2: usize = 0;
        let abi = match read_bytes(&inner2, &mut p2) {
            Some(x) => x,
            None => {
                return None;
            },
        };
        let cls = SierraContractClass {
            sierra_program,
            contract_class_version,
            entry_points_by_type,
            abi,
        };
        proof {
            let got = dec_sierra_contract_class(v@, *old(pos) as int)->0;
            assert(cls@ =~= got.0);
        }
        Some(cls)
    }
}

/// A serialized current-format class reads back as itself, for bodies
/// within the expansion bound.
#[verifier::rlimit(100)]
#[verifier::spinoff_prover]
pub proof fn lemma_sierra_body_decodes(
    body: Seq<u8>,
    c1: Seq<u8>,
    c2: Seq<u8>,
    cls: SierraContractClassView,
)
    requires
        cls.wf(),
        body == enc_bytes(c1) + enc_bytes(cls.contract_class_version) + enc_entry_point_by_type(
            cls.entry_points_by_type,
        ) + enc_bytes(c2),
        c1.len() <= u64::MAX,
        c2.len() <= u64::MAX,
        zstd_inflate(c1, MAX_DECOMPRESSED_SIZE as nat) == Some(enc_vec_felt(cls.sierra_program)),
        zstd_inflate(c2, MAX_DECOMPRESSED_SIZE as nat) == Some(enc_bytes(cls.abi)),
    ensures
        dec_sierra_contract_class(body, 0) == Some((cls, body.len() as int)),
{
    let e1 = enc_bytes(c1);
    let e2 = enc_bytes(cls.contract_class_version);
    let e3 = enc_entry_point_by_type(cls.entry_points_by_type);
    let e4 = enc_bytes(c2);
    let total = body.len() as int;
    let a = e1.len() as int;
    let b = a + e2.len() as int;
    let c = b + e3.len() as int;
    lemma_sub_of_sub(body, 0, total, 0, a);
    assert(body.subrange(0, a) =~= e1);
    lemma_dec_enc_bytes(body, 0, c1);
    let inner1 = enc_vec_felt(cls.sierra_program);
    assert(inner1.subrange(0, inner1.len() as int) =~= inner1);
    lemma_dec_enc_vec_felt(inner1, 0, cls.sierra_program);
    lemma_sub_of_sub(body, 0, total, a, b);
    assert(body.subrange(a, b) =~= e2);
    lemma_dec_enc_bytes(body, a, cls.contract_class_version);
    lemma_sub_of_sub(body, 0, total, b, c);
    assert(body.subrange(b, c) =~= e3);
    lemma_dec_enc_entry_point_by_type(body, b, cls.entry_points_by_type);
    lemma_sub_of_sub(body, 0, total, c, total);
    assert(body.subrange(c, total) =~= e4);
    lemma_dec_enc_bytes(body, c, c2);
    let inner2 = enc_bytes(cls.abi);
    assert(inner2.subrange(0, inner2.len() as int) =~= inner2);
    lemma_dec_enc_bytes(inner2, 0, cls.abi);
}

// ---------------------------------------------------------------------------
// Legacy class bodies.
// ---------------------------------------------------------------------------
/// The type of a legacy entry point.
#[derive(Clone, Copy, Debug, PartialEq, Eq, Structural)]
pub enum EntryPointType {
    Constructor,
    External,
    L1Handler,
}

/// The discriminant byte of a legacy entry point type.
pub open spec fn enc_entry_point_type(t: EntryPointType) -> Seq<u8> {
    match t {
        EntryPointType::Constructor => seq![0u8],
        EntryPointType::External => seq![1u8],
        EntryPointType::L1Handler => seq![2u8],
    }
}

/// Reads a legacy entry point type; an unknown discriminant fails the read.
pub open spec fn dec_entry_point_type(s: Seq<u8>, i: int) -> Option<(EntryPointType, int)> {
    match dec_u8(s, i) {
        None => None,
        Some((b, j)) => if b == 0 {
            Some((EntryPointType::Constructor, j))
        } else if b == 1 {
            Some((EntryPointType::External, j))
        } else if b == 2 {
            Some((EntryPointType::L1Handler, j))
        } else {
            None
        },
    }
}

/// Round trip for the entry point type.
pub proof fn lemma_dec_enc_entry_point_type(s: Seq<u8>, i: int, t: EntryPointType)
    requires
        0 <= i,
        i + 1 <= s.len(),
        s.subrange(i, i + 1) == enc_entry_point_type(t),
    ensures
        dec_entry_point_type(s, i) == Some((t, i + 1)),
{
    assert(s[i] == enc_entry_point_type(t)[0]);
}

/// An entry point of a legacy class: a selector and a code offset.
#[derive(Clone, Copy, Debug, PartialEq, Eq, Structural)]
pub struct DeprecatedEntryPoint {
    pub selector: EntryPointSelector,
    pub offset: u64,
}

/// A legacy entry point is its selector, then its offset widened to 64 bits.
pub open spec fn enc_deprecated_entry_point(e: DeprecatedEntryPoint) -> Seq<u8> {
    enc_entry_point_selector(e.selector) + enc_u64(e.offset)
}

/// Reads a legacy entry point.
pub open spec fn dec_deprecated_entry_point(s: Seq<u8>, i: int) -> Option<
    (DeprecatedEntryPoint, int),
> {
    match dec_entry_point_selector(s, i) {
        None => None,
        Some((selector, j)) => match dec_u64(s, j) {
            None => None,
            Some((offset, k)) => Some((DeprecatedEntryPoint { selector, offset }, k)),
        },
    }
}

/// Round trip for one legacy entry point.
pub proof fn lemma_dec_enc_deprecated_entry_point(s: Seq<u8>, i: int, e: DeprecatedEntryPoint)
    requires
        0 <= i,
        i + 40 <= s.len(),
        s.subrange(i, i + 40) == enc_deprecated_entry_point(e),
    ensures
        dec_deprecated_entry_point(s, i) == Some((e, i + 40)),
{
    lemma_enc_felt_len(e.selector.0);
    crate::bebytes::lemma_be_enc_len(e.offset as nat, 8);
    lemma_sub_of_sub(s, i, 40, 0, 32);
    assert(s.subrange(i, i + 32) =~= enc_entry_point_selector(e.selector));
    lemma_dec_enc_entry_point_selector(s, i, e.selector);
    lemma_sub_of_sub(s, i, 40, 32, 40);
    assert(s.subrange(i + 32, i + 40) =~= enc_u64(e.offset));
    lemma_dec_enc_u64(s, i + 32, e.offset);
}

/// The legacy entry point codec as a function value.
pub open spec fn enc_fn_deprecated_entry_point() -> spec_fn(DeprecatedEntryPoint) -> Seq<u8> {
    |e: DeprecatedEntryPoint| enc_deprecated_entry_point(e)
}

/// The legacy entry point decoder as a function value.
pub open spec fn dec_fn_deprecated_entry_point() -> spec_fn(Seq<u8>, int) -> Option<
    (DeprecatedEntryPoint, int),
> {
    |s: Seq<u8>, i: int| dec_deprecated_entry_point(s, i)
}

/// The encoding of a legacy entry point sequence.
pub open spec fn enc_deprecated_entry_point_list(s: Seq<DeprecatedEntryPoint>) -> Seq<u8> {
    enc_list(enc_fn_deprecated_entry_point(), s)
}

/// Reads a legacy entry point sequence.
pub open spec fn dec_deprecated_entry_point_list(s: Seq<u8>, i: int) -> Option<
    (Seq<DeprecatedEntryPoint>, int),
> {
    dec_list(dec_fn_deprecated_entry_point(), s, i)
}

/// Appends a length-prefixed legacy entry point sequence.
pub fn write_deprecated_entry_point_list(out: &mut Vec<u8>, data: &Vec<DeprecatedEntryPoint>)
    ensures
        final(out)@ == old(out)@ + enc_deprecated_entry_point_list(data@),
{
    write_varint(out, data.len() as u64);
    let mut k: usize = 0;
    while k < data.len()
        invariant
            k <= data@.len(),
            out@ == old(out)@ + varint_enc(data@.len() as u64) + enc_elem_list(
                enc_fn_deprecated_entry_point(),
                data@.subrange(0, k as int),
            ),
        decreases data@.len() - k,
    {
        let e = data[k];
        e.selector.serialize_into(out);
        write_u64(out, e.offset);
        k = k + 1;
        proof {
            assert(data@.subrange(0, k as int) =~= data@.subrange(0, k - 1).push(data@[k - 1]));
            lemma_enc_elem_list_snoc(
                enc_fn_deprecated_entry_point(),
                data@.subrange(0, k - 1),
                data@[k - 1],
            );
            assert(out@ =~= old(out)@ + varint_enc(data@.len() as u64) + enc_elem_list(
                enc_fn_deprecated_entry_point(),
                data@.subrange(0, k as int),
            ));
        }
    }
    assert(data@.subrange(0, data@.len() as int) =~= data@);
    assert(out@ =~= old(out)@ + enc_deprecated_entry_point_list(data@));
}

/// Reads a length-prefixed legacy entry point sequence, advancing the
/// position on success.
pub fn read_deprecated_entry_point_list(v: &Vec<u8>, pos: &mut usize) -> (r: Option<
    Vec<DeprecatedEntryPoint>,
>)
    ensures
        match dec_deprecated_entry_point_list(v@, *old(pos) as int) {
            Some((data, j)) => {
                &&& r matches Some(out) && out@ == data
                &&& *final(pos) == j
            },
            None => r is None,
        },
{
    let n = match read_varint(v, pos) {
        Some(n) => n,
        None => {
            return None;
        },
    };
    let mut res: Vec<DeprecatedEntryPoint> = Vec::new();
    let mut k: u64 = 0;
    while k < n
        invariant
            k <= n,
            res@.len() == k,
            dec_deprecated_entry_point_list(v@, *old(pos) as int) == (match dec_elem_list(
                dec_fn_deprecated_entry_point(),
                v@,
                *pos as int,
                (n - k) as nat,
            ) {
                Some((rest, end)) => Some::<(Seq<DeprecatedEntryPoint>, int)>((res@ + rest, end)),
                None => None::<(Seq<DeprecatedEntryPoint>, int)>,
            }),
        decreases n - k,
    {
        let ghost res_before = res@;
        let selector = match EntryPointSelector::deserialize_from(v, pos) {
            Some(x) => x,
            None => {
                return None;
            },
        };
        let offset = match read_u64(v, pos) {
            Some(x) => x,
            None => {
                return None;
            },
        };
        let e = DeprecatedEntryPoint { selector, offset };
        res.push(e);
        k = k + 1;
        proof {
            match dec_elem_list(dec_fn_deprecated_entry_point(), v@, *pos as int, (n - k) as nat) {
                Some((rest, end)) => {
                    assert(res_before + (seq![e] + rest) =~= res@ + rest);
                },
                None => {},
            }
        }
    }
    assert(res@ + Seq::<DeprecatedEntryPoint>::empty() =~= res@);
    Some(res)
}

/// Round trip for legacy entry point sequences.
pub proof fn lemma_dec_enc_deprecated_entry_point_list(
    s: Seq<u8>,
    i: int,
    data: Seq<DeprecatedEntryPoint>,
)
    requires
        data.len() <= u64::MAX,
        0 <= i,
        i + enc_deprecated_entry_point_list(data).len() <= s.len(),
        s.subrange(i, i + enc_deprecated_entry_point_list(data).len())
            == enc_deprecated_entry_point_list(data),
    ensures
        dec_deprecated_entry_point_list(s, i) == Some(
            (data, i + enc_deprecated_entry_point_list(data).len()),
        ),
{
    assert forall|x: DeprecatedEntryPoint, ii: int|
        true && 0 <= ii && ii + (#[trigger] enc_fn_deprecated_entry_point()(x)).len() <= s.len()
            && s.subrange(ii, ii + enc_fn_deprecated_entry_point()(x).len())
            == enc_fn_deprecated_entry_point()(x) implies #[trigger] dec_fn_deprecated_entry_point()(
        s,
        ii,
    ) == Some::<(DeprecatedEntryPoint, int)>(
        (x, ii + enc_fn_deprecated_entry_point()(x).len()),
    ) by {
        lemma_enc_felt_len(x.selector.0);
        crate::bebytes::lemma_be_enc_len(x.offset as nat, 8);
        lemma_dec_enc_deprecated_entry_point(s, ii, x);
    }
    lemma_dec_enc_list(
        dec_fn_deprecated_entry_point(),
        enc_fn_deprecated_entry_point(),
        |x: DeprecatedEntryPoint| true,
        s,
        i,
        data,
    );
}

// ---------------------------------------------------------------------------
// The legacy entry point mapping: entry point type to its entry points.
// ---------------------------------------------------------------------------
/// The specification view of the grouped legacy entry points.
pub open spec fn dep_ep_map_view(s: Seq<(EntryPointType, Vec<DeprecatedEntryPoint>)>) -> Seq<
    (EntryPointType, Seq<DeprecatedEntryPoint>),
> {
    s.map_values(|p: (EntryPointType, Vec<DeprecatedEntryPoint>)| (p.0, p.1@))
}

/// The key codec of the mapping, as a function value.
pub open spec fn enc_fn_entry_point_type() -> spec_fn(EntryPointType) -> Seq<u8> {
    |t: EntryPointType| enc_entry_point_type(t)
}

/// The key decoder of the mapping.
pub open spec fn dec_fn_entry_point_type() -> spec_fn(Seq<u8>, int) -> Option<
    (EntryPointType, int),
> {
    |s: Seq<u8>, i: int| dec_entry_point_type(s, i)
}

/// The value codec of the mapping, as a function value.
pub open spec fn enc_fn_dep_ep_list() -> spec_fn(Seq<DeprecatedEntryPoint>) -> Seq<u8> {
    |m: Seq<DeprecatedEntryPoint>| enc_deprecated_entry_point_list(m)
}

/// The value decoder of the mapping.
pub open spec fn dec_fn_dep_ep_list() -> spec_fn(Seq<u8>, int) -> Option<
    (Seq<DeprecatedEntryPoint>, int),
> {
    |s: Seq<u8>, i: int| dec_deprecated_entry_point_list(s, i)
}

/// The encoding of the mapping from entry point type to entry points.
pub open spec fn enc_dep_ep_map(data: Seq<(EntryPointType, Seq<DeprecatedEntryPoint>)>) -> Seq<
    u8,
> {
    crate::pairs::enc_map(enc_fn_entry_point_type(), enc_fn_dep_ep_list(), data)
}

/// Reads the mapping from entry point type to entry points.
pub open spec fn dec_dep_ep_map(s: Seq<u8>, i: int) -> Option<
    (Seq<(EntryPointType, Seq<DeprecatedEntryPoint>)>, int),
> {
    crate::pairs::dec_map(dec_fn_entry_point_type(), dec_fn_dep_ep_list(), s, i)
}

/// True when some entry carries this entry point type.
pub fn contains_key_dep_ep_map(
    entries: &Vec<(EntryPointType, Vec<DeprecatedEntryPoint>)>,
    key: EntryPointType,
) -> (r: bool)
    ensures
        r == crate::pairs::contains_key(dep_ep_map_view(entries@), key),
{
    let mut idx: usize = 0;
    while idx < entries.len()
        invariant
            idx <= entries@.len(),
            forall|j: int| 0 <= j < idx ==> (#[trigger] dep_ep_map_view(entries@)[j]).0 != key,
        decreases entries@.len() - idx,
    {
        if entries[idx].0 == key {
            assert(dep_ep_map_view(entries@)[idx as int].0 == key);
            return true;
        }
        assert(dep_ep_map_view(entries@)[idx as int].0 == entries@[idx as int].0);
        idx = idx + 1;
    }
    false
}

/// Appends the mapping from entry point type to entry points.
pub fn write_dep_ep_map(out: &mut Vec<u8>, data: &Vec<(EntryPointType, Vec<DeprecatedEntryPoint>)>)
    ensures
        final(out)@ == old(out)@ + enc_dep_ep_map(dep_ep_map_view(data@)),
{
    write_varint(out, data.len() as u64);
    let mut k: usize = 0;
    while k < data.len()
        invariant
            k <= data@.len(),
            out@ == old(out)@ + varint_enc(data@.len() as u64) + crate::pairs::enc_pair_list(
                enc_fn_entry_point_type(),
                enc_fn_dep_ep_list(),
                dep_ep_map_view(data@).subrange(0, k as int),
            ),
        decreases data@.len() - k,
    {
        let tag = data[k].0;
        match tag {
            EntryPointType::Constructor => write_u8(out, 0),
            EntryPointType::External => write_u8(out, 1),
            EntryPointType::L1Handler => write_u8(out, 2),
        }
        write_deprecated_entry_point_list(out, &data[k].1);
        k = k + 1;
        proof {
            let sv = dep_ep_map_view(data@);
            assert(sv[k - 1] == (data@[k - 1].0, data@[k - 1].1@));
            assert(sv.subrange(0, k as int) =~= sv.subrange(0, k - 1).push(sv[k - 1]));
            crate::pairs::lemma_enc_pair_list_snoc(
                enc_fn_entry_point_type(),
                enc_fn_dep_ep_list(),
                sv.subrange(0, k - 1),
                sv[k - 1].0,
                sv[k - 1].1,
            );
            assert(out@ =~= old(out)@ + varint_enc(data@.len() as u64)
                + crate::pairs::enc_pair_list(
                enc_fn_entry_point_type(),
                enc_fn_dep_ep_list(),
                sv.subrange(0, k as int),
            ));
        }
    }
    assert(dep_ep_map_view(data@).subrange(0, data@.len() as int) =~= dep_ep_map_view(data@));
    assert(out@ =~= old(out)@ + enc_dep_ep_map(dep_ep_map_view(data@)));
}

/// Reads the mapping, advancing the position on success; a repeated entry
/// point type fails the whole read.
pub fn read_dep_ep_map(v: &Vec<u8>, pos: &mut usize) -> (r: Option<
    Vec<(EntryPointType, Vec<DeprecatedEntryPoint>)>,
>)
    ensures
        match dec_dep_ep_map(v@, *old(pos) as int) {
            Some((data, j)) => {
                &&& r matches Some(out) && dep_ep_map_view(out@) == data
                &&& *final(pos) == j
            },
            None => r is None,
        },
{
    let n = match read_varint(v, pos) {
        Some(n) => n,
        None => {
            return None;
        },
    };
    let mut res: Vec<(EntryPointType, Vec<DeprecatedEntryPoint>)> = Vec::new();
    proof {
        assert(dep_ep_map_view(res@) =~= Seq::<
            (EntryPointType, Seq<DeprecatedEntryPoint>),
        >::empty());
    }
    let mut k: u64 = 0;
    while k < n
        invariant
            k <= n,
            res@.len() == k,
            dec_dep_ep_map(v@, *old(pos) as int) == crate::pairs::dec_pair_list(
                dec_fn_entry_point_type(),
                dec_fn_dep_ep_list(),
                v@,
                *pos as int,
                (n - k) as nat,
                dep_ep_map_view(res@),
            ),
        decreases n - k,
    {
        let ghost sv_before = dep_ep_map_view(res@);
        let tagbyte = match read_u8(v, pos) {
            Some(b) => b,
            None => {
                return None;
            },
        };
        let key = if tagbyte == 0 {
            EntryPointType::Constructor
        } else if tagbyte == 1 {
            EntryPointType::External
        } else if tagbyte == 2 {
            EntryPointType::L1Handler
        } else {
            return None;
        };
        let val = match read_deprecated_entry_point_list(v, pos) {
            Some(x) => x,
            None => {
                return None;
            },
        };
        if contains_key_dep_ep_map(&res, key) {
            return None;
        }
        res.push((key, val));
        k = k + 1;
        proof {
            assert(dep_ep_map_view(res@) =~= sv_before.push((key, val@)));
        }
    }
    Some(res)
}

/// Round trip for the grouped legacy entry points: unique types, and each
/// group within the count bound.
pub proof fn lemma_dec_enc_dep_ep_map(
    s: Seq<u8>,
    i: int,
    data: Seq<(EntryPointType, Seq<DeprecatedEntryPoint>)>,
)
    requires
        crate::pairs::unique_keys(data),
        forall|j: int| 0 <= j < data.len() ==> (#[trigger] data[j]).1.len() <= u64::MAX,
        data.len() <= u64::MAX,
        0 <= i,
        i + enc_dep_ep_map(data).len() <= s.len(),
        s.subrange(i, i + enc_dep_ep_map(data).len()) == enc_dep_ep_map(data),
    ensures
        dec_dep_ep_map(s, i) == Some((data, i + enc_dep_ep_map(data).len())),
{
    assert forall|x: EntryPointType, ii: int|
        0 <= ii && ii + (#[trigger] enc_fn_entry_point_type()(x)).len() <= s.len() && s.subrange(
            ii,
            ii + enc_fn_entry_point_type()(x).len(),
        ) == enc_fn_entry_point_type()(x) implies #[trigger] dec_fn_entry_point_type()(s, ii)
        == Some::<(EntryPointType, int)>((x, ii + enc_fn_entry_point_type()(x).len())) by {
        lemma_dec_enc_entry_point_type(s, ii, x);
    }
    assert forall|y: Seq<DeprecatedEntryPoint>, ii: int|
        (y.len() <= u64::MAX) && 0 <= ii && ii + (#[trigger] enc_fn_dep_ep_list()(y)).len()
            <= s.len() && s.subrange(ii, ii + enc_fn_dep_ep_list()(y).len()) == enc_fn_dep_ep_list()(
            y,
        ) implies #[trigger] dec_fn_dep_ep_list()(s, ii) == Some::<
        (Seq<DeprecatedEntryPoint>, int),
    >((y, ii + enc_fn_dep_ep_list()(y).len())) by {
        lemma_dec_enc_deprecated_entry_point_list(s, ii, y);
    }
    crate::pairs::lemma_dec_enc_map(
        dec_fn_entry_point_type(),
        dec_fn_dep_ep_list(),
        enc_fn_entry_point_type(),
        enc_fn_dep_ep_list(),
        |y: Seq<DeprecatedEntryPoint>| y.len() <= u64::MAX,
        s,
        i,
        data,
    );
}

// ---------------------------------------------------------------------------
// The structured interface of a legacy class.
// ---------------------------------------------------------------------------
/// A named, typed parameter of a legacy interface entry. Text is carried as
/// UTF-8 bytes.
#[derive(Clone, Debug, PartialEq, Eq)]
pub struct TypedParameter {
    pub name: Vec<u8>,
    pub ty: Vec<u8>,
}

/// The mathematical view of a typed parameter.
#[verifier::ext_equal]
pub struct TypedParameterView {
    pub name: Seq<u8>,
    pub ty: Seq<u8>,
}

impl View for TypedParameter {
    type V = TypedParameterView;

    open spec fn view(&self) -> TypedParameterView {
        TypedParameterView { name: self.name@, ty: self.ty@ }
    }
}

impl TypedParameterView {
    /// Lengths fit the wire format's 64-bit counts.
    pub open spec fn wf(self) -> bool {
        &&& self.name.len() <= u64::MAX
        &&& self.ty.len() <= u64::MAX
    }
}

/// A typed parameter is its name, then its type text.
pub open spec fn enc_typed_parameter(p: TypedParameterView) -> Seq<u8> {
    enc_bytes(p.name) + enc_bytes(p.ty)
}

/// Reads a typed parameter.
pub open spec fn dec_typed_parameter(s: Seq<u8>, i: int) -> Option<(TypedParameterView, int)> {
    match dec_bytes(s, i) {
        None => None,
        Some((name, a)) => match dec_bytes(s, a) {
            None => None,
            Some((ty, b)) => Some((TypedParameterView { name, ty }, b)),
        },
    }
}

/// Round trip for one typed parameter.
pub proof fn lemma_dec_enc_typed_parameter(s: Seq<u8>, i: int, p: TypedParameterView)
    requires
        p.wf(),
        0 <= i,
        i + enc_typed_parameter(p).len() <= s.len(),
        s.subrange(i, i + enc_typed_parameter(p).len()) == enc_typed_parameter(p),
    ensures
        dec_typed_parameter(s, i) == Some((p, i + enc_typed_parameter(p).len())),
{
    let e1 = enc_bytes(p.name);
    let total = enc_typed_parameter(p).len() as int;
    let a = i + e1.len() as int;
    lemma_sub_of_sub(s, i, total, 0, e1.len() as int);
    assert(s.subrange(i, a) =~= e1);
    lemma_dec_enc_bytes(s, i, p.name);
    lemma_sub_of_sub(s, i, total, a - i, total);
    assert(s.subrange(a, i + total) =~= enc_bytes(p.ty));
    lemma_dec_enc_bytes(s, a, p.ty);
}

/// The typed parameter codec as a function value.
pub open spec fn enc_fn_typed_parameter() -> spec_fn(TypedParameterView) -> Seq<u8> {
    |p: TypedParameterView| enc_typed_parameter(p)
}

/// The typed parameter decoder as a function value.
pub open spec fn dec_fn_typed_parameter() -> spec_fn(Seq<u8>, int) -> Option<
    (TypedParameterView, int),
> {
    |s: Seq<u8>, i: int| dec_typed_parameter(s, i)
}

/// The specification view of a typed parameter sequence.
pub open spec fn typed_parameter_list_view(s: Seq<TypedParameter>) -> Seq<TypedParameterView> {
    s.map_values(|p: TypedParameter| p@)
}

/// The encoding of a typed parameter sequence.
pub open spec fn enc_typed_parameter_list(s: Seq<TypedParameterView>) -> Seq<u8> {
    enc_list(enc_fn_typed_parameter(), s)
}

/// Reads a typed parameter sequence.
pub open spec fn dec_typed_parameter_list(s: Seq<u8>, i: int) -> Option<
    (Seq<TypedParameterView>, int),
> {
    dec_list(dec_fn_typed_parameter(), s, i)
}

/// Appends a length-prefixed typed parameter sequence.
pub fn write_typed_parameter_list(out: &mut Vec<u8>, data: &Vec<TypedParameter>)
    ensures
        final(out)@ == old(out)@ + enc_typed_parameter_list(typed_parameter_list_view(data@)),
{
    write_varint(out, data.len() as u64);
    let mut k: usize = 0;
    while k < data.len()
        invariant
            k <= data@.len(),
            out@ == old(out)@ + varint_enc(data@.len() as u64) + enc_elem_list(
                enc_fn_typed_parameter(),
                typed_parameter_list_view(data@).subrange(0, k as int),
            ),
        decreases data@.len() - k,
    {
        write_bytes(out, &data[k].name);
        write_bytes(out, &data[k].ty);
        k = k + 1;
        proof {
            let sv = typed_parameter_list_view(data@);
            assert(sv[k - 1] == data@[k - 1]@);
            assert(sv.subrange(0, k as int) =~= sv.subrange(0, k - 1).push(sv[k - 1]));
            lemma_enc_elem_list_snoc(enc_fn_typed_parameter(), sv.subrange(0, k - 1), sv[k - 1]);
            assert(out@ =~= old(out)@ + varint_enc(data@.len() as u64) + enc_elem_list(
                enc_fn_typed_parameter(),
                sv.subrange(0, k as int),
            ));
        }
    }
    assert(typed_parameter_list_view(data@).subrange(0, data@.len() as int)
        =~= typed_parameter_list_view(data@));
    assert(out@ =~= old(out)@ + enc_typed_parameter_list(typed_parameter_list_view(data@)));
}

/// Reads a length-prefixed typed parameter sequence, advancing the position
/// on success.
pub fn read_typed_parameter_list(v: &Vec<u8>, pos: &mut usize) -> (r: Option<Vec<TypedParameter>>)
    ensures
        match dec_typed_parameter_list(v@, *old(pos) as int) {
            Some((data, j)) => {
                &&& r matches Some(out) && typed_parameter_list_view(out@) == data
                &&& *final(pos) == j
            },
            None => r is None,
        },
{
    let n = match read_varint(v, pos) {
        Some(n) => n,
        None => {
            return None;
        },
    };
    let mut res: Vec<TypedParameter> = Vec::new();
    proof {
        assert(typed_parameter_list_view(res@) =~= Seq::<TypedParameterView>::empty());
    }
    let mut k: u64 = 0;
    while k < n
        invariant
            k <= n,
            res@.len() == k,
            dec_typed_parameter_list(v@, *old(pos) as int) == (match dec_elem_list(
                dec_fn_typed_parameter(),
                v@,
                *pos as int,
                (n - k) as nat,
            ) {
                Some((rest, end)) => Some::<(Seq<TypedParameterView>, int)>(
                    (typed_parameter_list_view(res@) + rest, end),
                ),
                None => None::<(Seq<TypedParameterView>, int)>,
            }),
        decreases n - k,
    {
        let ghost sv_before = typed_parameter_list_view(res@);
        let name = match read_bytes(v, pos) {
            Some(x) => x,
            None => {
                return None;
            },
        };
        let ty = match read_bytes(v, pos) {
            Some(x) => x,
            None => {
                return None;
            },
        };
        let p = TypedParameter { name, ty };
        let ghost pv = p@;
        res.push(p);
        k = k + 1;
        proof {
            assert(typed_parameter_list_view(res@) =~= sv_before.push(pv));
            match dec_elem_list(dec_fn_typed_parameter(), v@, *pos as int, (n - k) as nat) {
                Some((rest, end)) => {
                    assert(sv_before + (seq![pv] + rest) =~= typed_parameter_list_view(res@)
                        + rest);
                },
                None => {},
            }
        }
    }
    proof {
        assert(typed_parameter_list_view(res@) + Seq::<TypedParameterView>::empty()
            =~= typed_parameter_list_view(res@));
    }
    Some(res)
}

/// Round trip for typed parameter sequences.
pub proof fn lemma_dec_enc_typed_parameter_list(s: Seq<u8>, i: int, data: Seq<TypedParameterView>)
    requires
        data.len() <= u64::MAX,
        forall|j: int| 0 <= j < data.len() ==> (#[trigger] data[j]).wf(),
        0 <= i,
        i + enc_typed_parameter_list(data).len() <= s.len(),
        s.subrange(i, i + enc_typed_parameter_list(data).len()) == enc_typed_parameter_list(data),
    ensures
        dec_typed_parameter_list(s, i) == Some(
            (data, i + enc_typed_parameter_list(data).len()),
        ),
{
    assert forall|x: TypedParameterView, ii: int|
        x.wf() && 0 <= ii && ii + (#[trigger] enc_fn_typed_parameter()(x)).len() <= s.len()
            && s.subrange(ii, ii + enc_fn_typed_parameter()(x).len()) == enc_fn_typed_parameter()(
            x,
        ) implies #[trigger] dec_fn_typed_parameter()(s, ii) == Some::<(TypedParameterView, int)>(
        (x, ii + enc_fn_typed_parameter()(x).len()),
    ) by {
        lemma_dec_enc_typed_parameter(s, ii, x);
    }
    lemma_dec_enc_list(
        dec_fn_typed_parameter(),
        enc_fn_typed_parameter(),
        |x: TypedParameterView| x.wf(),
        s,
        i,
        data,
    );
}

/// A member of a legacy struct type: its name, its offset widened to 64
/// bits, and its type text.
#[derive(Clone, Debug, PartialEq, Eq)]
pub struct StructMember {
    pub name: Vec<u8>,
    pub offset: u64,
    pub ty: Vec<u8>,
}

/// The mathematical view of a struct member.
#[verifier::ext_equal]
pub struct StructMemberView {
    pub name: Seq<u8>,
    pub offset: u64,
    pub ty: Seq<u8>,
}

impl View for StructMember {
    type V = StructMemberView;

    open spec fn view(&self) -> StructMemberView {
        StructMemberView { name: self.name@, offset: self.offset, ty: self.ty@ }
    }
}

impl StructMemberView {
    /// Lengths fit the wire format's 64-bit counts.
    pub open spec fn wf(self) -> bool {
        &&& self.name.len() <= u64::MAX
        &&& self.ty.len() <= u64::MAX
    }
}

/// A struct member is its name, its offset, then its type text.
pub open spec fn enc_struct_member(m: StructMemberView) -> Seq<u8> {
    enc_bytes(m.name) + enc_u64(m.offset) + enc_bytes(m.ty)
}

/// Reads a struct member.
pub open spec fn dec_struct_member(s: Seq<u8>, i: int) -> Option<(StructMemberView, int)> {
    match dec_bytes(s, i) {
        None => None,
        Some((name, a)) => match dec_u64(s, a) {
            None => None,
            Some((offset, b)) => match dec_bytes(s, b) {
                None => None,
                Some((ty, c)) => Some((StructMemberView { name, offset, ty }, c)),
            },
        },
    }
}

/// Round trip for one struct member.
pub proof fn lemma_dec_enc_struct_member(s: Seq<u8>, i: int, m: StructMemberView)
    requires
        m.wf(),
        0 <= i,
        i + enc_struct_member(m).len() <= s.len(),
        s.subrange(i, i + enc_struct_member(m).len()) == enc_struct_member(m),
    ensures
        dec_struct_member(s, i) == Some((m, i + enc_struct_member(m).len())),
{
    crate::bebytes::lemma_be_enc_len(m.offset as nat, 8);
    let e1 = enc_bytes(m.name);
    let total = enc_struct_member(m).len() as int;
    let a = i + e1.len() as int;
    let b = a + 8;
    lemma_sub_of_sub(s, i, total, 0, e1.len() as int);
    assert(s.subrange(i, a) =~= e1);
    lemma_dec_enc_bytes(s, i, m.name);
    lemma_sub_of_sub(s, i, total, a - i, b - i);
    assert(s.subrange(a, b) =~= enc_u64(m.offset));
    lemma_dec_enc_u64(s, a, m.offset);
    lemma_sub_of_sub(s, i, total, b - i, total);
    assert(s.subrange(b, i + total) =~= enc_bytes(m.ty));
    lemma_dec_enc_bytes(s, b, m.ty);
}

/// The struct member codec as a function value.
pub open spec fn enc_fn_struct_member() -> spec_fn(StructMemberView) -> Seq<u8> {
    |m: StructMemberView| enc_struct_member(m)
}

/// The struct member decoder as a function value.
pub open spec fn dec_fn_struct_member() -> spec_fn(Seq<u8>, int) -> Option<
    (StructMemberView, int),
> {
    |s: Seq<u8>, i: int| dec_struct_member(s, i)
}

/// The specification view of a struct member sequence.
pub open spec fn struct_member_list_view(s: Seq<StructMember>) -> Seq<StructMemberView> {
    s.map_values(|m: StructMember| m@)
}

/// The encoding of a struct member sequence.
pub open spec fn enc_struct_member_list(s: Seq<StructMemberView>) -> Seq<u8> {
    enc_list(enc_fn_struct_member(), s)
}

/// Reads a struct member sequence.
pub open spec fn dec_struct_member_list(s: Seq<u8>, i: int) -> Option<
    (Seq<StructMemberView>, int),
> {
    dec_list(dec_fn_struct_member(), s, i)
}

/// Appends a length-prefixed struct member sequence.
pub fn write_struct_member_list(out: &mut Vec<u8>, data: &Vec<StructMember>)
    ensures
        final(out)@ == old(out)@ + enc_struct_member_list(struct_member_list_view(data@)),
{
    write_varint(out, data.len() as u64);
    let mut k: usize = 0;
    while k < data.len()
        invariant
            k <= data@.len(),
            out@ == old(out)@ + varint_enc(data@.len() as u64) + enc_elem_list(
                enc_fn_struct_member(),
                struct_member_list_view(data@).subrange(0, k as int),
            ),
        decreases data@.len() - k,
    {
        write_bytes(out, &data[k].name);
        write_u64(out, data[k].offset);
        write_bytes(out, &data[k].ty);
        k = k + 1;
        proof {
            let sv = struct_member_list_view(data@);
            assert(sv[k - 1] == data@[k - 1]@);
            assert(sv.subrange(0, k as int) =~= sv.subrange(0, k - 1).push(sv[k - 1]));
            lemma_enc_elem_list_snoc(enc_fn_struct_member(), sv.subrange(0, k - 1), sv[k - 1]);
            assert(out@ =~= old(out)@ + varint_enc(data@.len() as u64) + enc_elem_list(
                enc_fn_struct_member(),
                sv.subrange(0, k as int),
            ));
        }
    }
    assert(struct_member_list_view(data@).subrange(0, data@.len() as int)
        =~= struct_member_list_view(data@));
    assert(out@ =~= old(out)@ + enc_struct_member_list(struct_member_list_view(data@)));
}

/// Reads a length-prefixed struct member sequence, advancing the position
/// on success.
pub fn read_struct_member_list(v: &Vec<u8>, pos: &mut usize) -> (r: Option<Vec<StructMember>>)
    ensures
        match dec_struct_member_list(v@, *old(pos) as int) {
            Some((data, j)) => {
                &&& r matches Some(out) && struct_member_list_view(out@) == data
                &&& *final(pos) == j
            },
            None => r is None,
        },
{
    let n = match read_varint(v, pos) {
        Some(n) => n,
        None => {
            return None;
        },
    };
    let mut res: Vec<StructMember> = Vec::new();
    proof {
        assert(struct_member_list_view(res@) =~= Seq::<StructMemberView>::empty());
    }
    let mut k: u64 = 0;
    while k < n
        invariant
            k <= n,
            res@.len() == k,
            dec_struct_member_list(v@, *old(pos) as int) == (match dec_elem_list(
                dec_fn_struct_member(),
                v@,
                *pos as int,
                (n - k) as nat,
            ) {
                Some((rest, end)) => Some::<(Seq<StructMemberView>, int)>(
                    (struct_member_list_view(res@) + rest, end),
                ),
                None => None::<(Seq<StructMemberView>, int)>,
            }),
        decreases n - k,
    {
        let ghost sv_before = struct_member_list_view(res@);
        let name = match read_bytes(v, pos) {
            Some(x) => x,
            None => {
                return None;
            },
        };
        let offset = match read_u64(v, pos) {
            Some(x) => x,
            None => {
                return None;
            },
        };
        let ty = match read_bytes(v, pos) {
            Some(x) => x,
            None => {
                return None;
            },
        };
        let m = StructMember { name, offset, ty };
        let ghost mv = m@;
        res.push(m);
        k = k + 1;
        proof {
            assert(struct_member_list_view(res@) =~= sv_before.push(mv));
            match dec_elem_list(dec_fn_struct_member(), v@, *pos as int, (n - k) as nat) {
                Some((rest, end)) => {
                    assert(sv_before + (seq![mv] + rest) =~= struct_member_list_view(res@)
                        + rest);
                },
                None => {},
            }
        }
    }
    proof {
        assert(struct_member_list_view(res@) + Seq::<StructMemberView>::empty()
            =~= struct_member_list_view(res@));
    }
    Some(res)
}

/// Round trip for struct member sequences.
pub proof fn lemma_dec_enc_struct_member_list(s: Seq<u8>, i: int, data: Seq<StructMemberView>)
    requires
        data.len() <= u64::MAX,
        forall|j: int| 0 <= j < data.len() ==> (#[trigger] data[j]).wf(),
        0 <= i,
        i + enc_struct_member_list(data).len() <= s.len(),
        s.subrange(i, i + enc_struct_member_list(data).len()) == enc_struct_member_list(data),
    ensures
        dec_struct_member_list(s, i) == Some((data, i + enc_struct_member_list(data).len())),
{
    assert forall|x: StructMemberView, ii: int|
        x.wf() && 0 <= ii && ii + (#[trigger] enc_fn_struct_member()(x)).len() <= s.len()
            && s.subrange(ii, ii + enc_fn_struct_member()(x).len()) == enc_fn_struct_member()(x)
        implies #[trigger] dec_fn_struct_member()(s, ii) == Some::<(StructMemberView, int)>(
        (x, ii + enc_fn_struct_member()(x).len()),
    ) by {
        lemma_dec_enc_struct_member(s, ii, x);
    }
    lemma_dec_enc_list(
        dec_fn_struct_member(),
        enc_fn_struct_member(),
        |x: StructMemberView| x.wf(),
        s,
        i,
        data,
    );
}

/// The marker type of a legacy event entry.
#[derive(Clone, Copy, Debug, PartialEq, Eq, Structural)]
pub enum EventType {
    Event,
}

/// The marker's discriminant byte.
pub open spec fn enc_event_type(t: EventType) -> Seq<u8> {
    seq![0u8]
}

/// Reads the event marker; any other discriminant fails the read.
pub open spec fn dec_event_type(s: Seq<u8>, i: int) -> Option<(EventType, int)> {
    match dec_u8(s, i) {
        None => None,
        Some((b, j)) => if b == 0 {
            Some((EventType::Event, j))
        } else {
            None
        },
    }
}

/// The mutability marker of a view function.
#[derive(Clone, Copy, Debug, PartialEq, Eq, Structural)]
pub enum FunctionStateMutability {
    View,
}

/// An optional mutability marker: a presence byte, then its discriminant.
pub open spec fn enc_opt_mutability(o: Option<FunctionStateMutability>) -> Seq<u8> {
    match o {
        None => seq![0u8],
        Some(m) => seq![1u8, 0u8],
    }
}

/// Reads an optional mutability marker; unknown presence or discriminant
/// bytes fail the read.
pub open spec fn dec_opt_mutability(s: Seq<u8>, i: int) -> Option<
    (Option<FunctionStateMutability>, int),
> {
    match dec_u8(s, i) {
        None => None,
        Some((tag, j)) => if tag == 0 {
            Some((None, j))
        } else if tag == 1 {
            match dec_u8(s, j) {
                None => None,
                Some((b, k)) => if b == 0 {
                    Some((Some(FunctionStateMutability::View), k))
                } else {
                    None
                },
            }
        } else {
            None
        },
    }
}

/// The marker type of a legacy struct entry.
#[derive(Clone, Copy, Debug, PartialEq, Eq, Structural)]
pub enum StructType {
    Struct,
}

/// The marker's discriminant byte.
pub open spec fn enc_struct_type(t: StructType) -> Seq<u8> {
    seq![0u8]
}

/// Reads the struct marker; any other discriminant fails the read.
pub open spec fn dec_struct_type(s: Seq<u8>, i: int) -> Option<(StructType, int)> {
    match dec_u8(s, i) {
        None => None,
        Some((b, j)) => if b == 0 {
            Some((StructType::Struct, j))
        } else {
            None
        },
    }
}

/// An event of a legacy interface.
#[derive(Clone, Debug, PartialEq, Eq)]
pub struct EventAbiEntry {
    pub data: Vec<TypedParameter>,
    pub keys: Vec<TypedParameter>,
    pub name: Vec<u8>,
    pub ty: EventType,
}

/// The mathematical view of an event entry.
#[verifier::ext_equal]
pub struct EventAbiEntryView {
    pub data: Seq<TypedParameterView>,
    pub keys: Seq<TypedParameterView>,
    pub name: Seq<u8>,
    pub ty: EventType,
}

impl View for EventAbiEntry {
    type V = EventAbiEntryView;

    open spec fn view(&self) -> EventAbiEntryView {
        EventAbiEntryView {
            data: typed_parameter_list_view(self.data@),
            keys: typed_parameter_list_view(self.keys@),
            name: self.name@,
            ty: self.ty,
        }
    }
}

impl EventAbiEntryView {
    /// Lengths fit the wire format's 64-bit counts.
    pub open spec fn wf(self) -> bool {
        &&& self.data.len() <= u64::MAX
        &&& forall|j: int| 0 <= j < self.data.len() ==> (#[trigger] self.data[j]).wf()
        &&& self.keys.len() <= u64::MAX
        &&& forall|j: int| 0 <= j < self.keys.len() ==> (#[trigger] self.keys[j]).wf()
        &&& self.name.len() <= u64::MAX
    }
}

/// An event entry is its data and key parameters, its name, then its
/// marker.
pub open spec fn enc_event_abi_entry(e: EventAbiEntryView) -> Seq<u8> {
    enc_typed_parameter_list(e.data) + enc_typed_parameter_list(e.keys) + enc_bytes(e.name)
        + enc_event_type(e.ty)
}

/// Reads an event entry.
pub open spec fn dec_event_abi_entry(s: Seq<u8>, i: int) -> Option<(EventAbiEntryView, int)> {
    match dec_typed_parameter_list(s, i) {
        None => None,
        Some((data, a)) => match dec_typed_parameter_list(s, a) {
            None => None,
            Some((keys, b)) => match dec_bytes(s, b) {
                None => None,
                Some((name, c)) => match dec_event_type(s, c) {
                    None => None,
                    Some((ty, d)) => Some((EventAbiEntryView { data, keys, name, ty }, d)),
                },
            },
        },
    }
}

/// Round trip for one event entry.
pub proof fn lemma_dec_enc_event_abi_entry(s: Seq<u8>, i: int, e: EventAbiEntryView)
    requires
        e.wf(),
        0 <= i,
        i + enc_event_abi_entry(e).len() <= s.len(),
        s.subrange(i, i + enc_event_abi_entry(e).len()) == enc_event_abi_entry(e),
    ensures
        dec_event_abi_entry(s, i) == Some((e, i + enc_event_abi_entry(e).len())),
{
    let e1 = enc_typed_parameter_list(e.data);
    let e2 = enc_typed_parameter_list(e.keys);
    let e3 = enc_bytes(e.name);
    let total = enc_event_abi_entry(e).len() as int;
    let a = i + e1.len() as int;
    let b = a + e2.len() as int;
    let c = b + e3.len() as int;
    lemma_sub_of_sub(s, i, total, 0, e1.len() as int);
    assert(s.subrange(i, a) =~= e1);
    lemma_dec_enc_typed_parameter_list(s, i, e.data);
    lemma_sub_of_sub(s, i, total, a - i, b - i);
    assert(s.subrange(a, b) =~= e2);
    lemma_dec_enc_typed_parameter_list(s, a, e.keys);
    lemma_sub_of_sub(s, i, total, b - i, c - i);
    assert(s.subrange(b, c) =~= e3);
    lemma_dec_enc_bytes(s, b, e.name);
    lemma_sub_of_sub(s, i, total, c - i, total);
    assert(s.subrange(c, i + total) =~= enc_event_type(e.ty));
    assert(s[c] == enc_event_type(e.ty)[0]);
}

/// A function, constructor, or handler of a legacy interface. The kind is
/// the surrounding tagged variant, not a stored field.
#[derive(Clone, Debug, PartialEq, Eq)]
pub struct FunctionAbiEntry {
    pub name: Vec<u8>,
    pub inputs: Vec<TypedParameter>,
    pub outputs: Vec<TypedParameter>,
    pub state_mutability: Option<FunctionStateMutability>,
}

/// The mathematical view of a function entry.
#[verifier::ext_equal]
pub struct FunctionAbiEntryView {
    pub name: Seq<u8>,
    pub inputs: Seq<TypedParameterView>,
    pub outputs: Seq<TypedParameterView>,
    pub state_mutability: Option<FunctionStateMutability>,
}

impl View for FunctionAbiEntry {
    type V = FunctionAbiEntryView;

    open spec fn view(&self) -> FunctionAbiEntryView {
        FunctionAbiEntryView {
            name: self.name@,
            inputs: typed_parameter_list_view(self.inputs@),
            outputs: typed_parameter_list_view(self.outputs@),
            state_mutability: self.state_mutability,
        }
    }
}

impl FunctionAbiEntryView {
    /// Lengths fit the wire format's 64-bit counts.
    pub open spec fn wf(self) -> bool {
        &&& self.name.len() <= u64::MAX
        &&& self.inputs.len() <= u64::MAX
        &&& forall|j: int| 0 <= j < self.inputs.len() ==> (#[trigger] self.inputs[j]).wf()
        &&& self.outputs.len() <= u64::MAX
        &&& forall|j: int| 0 <= j < self.outputs.len() ==> (#[trigger] self.outputs[j]).wf()
    }
}

/// A function entry is its name, its inputs and outputs, then its optional
/// mutability marker.
pub open spec fn enc_function_abi_entry(e: FunctionAbiEntryView) -> Seq<u8> {
    enc_bytes(e.name) + enc_typed_parameter_list(e.inputs) + enc_typed_parameter_list(e.outputs)
        + enc_opt_mutability(e.state_mutability)
}

/// Reads a function entry.
pub open spec fn dec_function_abi_entry(s: Seq<u8>, i: int) -> Option<
    (FunctionAbiEntryView, int),
> {
    match dec_bytes(s, i) {
        None => None,
        Some((name, a)) => match dec_typed_parameter_list(s, a) {
            None => None,
            Some((inputs, b)) => match dec_typed_parameter_list(s, b) {
                None => None,
                Some((outputs, c)) => match dec_opt_mutability(s, c) {
                    None => None,
                    Some((state_mutability, d)) => Some(
                        (FunctionAbiEntryView { name, inputs, outputs, state_mutability }, d),
                    ),
                },
            },
        },
    }
}

/// Round trip for one function entry.
pub proof fn lemma_dec_enc_function_abi_entry(s: Seq<u8>, i: int, e: FunctionAbiEntryView)
    requires
        e.wf(),
        0 <= i,
        i + enc_function_abi_entry(e).len() <= s.len(),
        s.subrange(i, i + enc_function_abi_entry(e).len()) == enc_function_abi_entry(e),
    ensures
        dec_function_abi_entry(s, i) == Some((e, i + enc_function_abi_entry(e).len())),
{
    let e1 = enc_bytes(e.name);
    let e2 = enc_typed_parameter_list(e.inputs);
    let e3 = enc_typed_parameter_list(e.outputs);
    let e4 = enc_opt_mutability(e.state_mutability);
    let total = enc_function_abi_entry(e).len() as int;
    let a = i + e1.len() as int;
    let b = a + e2.len() as int;
    let c = b + e3.len() as int;
    lemma_sub_of_sub(s, i, total, 0, e1.len() as int);
    assert(s.subrange(i, a) =~= e1);
    lemma_dec_enc_bytes(s, i, e.name);
    lemma_sub_of_sub(s, i, total, a - i, b - i);
    assert(s.subrange(a, b) =~= e2);
    lemma_dec_enc_typed_parameter_list(s, a, e.inputs);
    lemma_sub_of_sub(s, i, total, b - i, c - i);
    assert(s.subrange(b, c) =~= e3);
    lemma_dec_enc_typed_parameter_list(s, b, e.outputs);
    lemma_sub_of_sub(s, i, total, c - i, total);
    assert(s.subrange(c, i + total) =~= e4);
    assert(s[c] == e4[0]);
    match e.state_mutability {
        None => {},
        Some(m) => {
            assert(s[c + 1] == e4[1]);
        },
    }
}

/// A struct type of a legacy interface.
#[derive(Clone, Debug, PartialEq, Eq)]
pub struct StructAbiEntry {
    pub members: Vec<StructMember>,
    pub name: Vec<u8>,
    pub size: u64,
    pub ty: StructType,
}

/// The mathematical view of a struct entry.
#[verifier::ext_equal]
pub struct StructAbiEntryView {
    pub members: Seq<StructMemberView>,
    pub name: Seq<u8>,
    pub size: u64,
    pub ty: StructType,
}

impl View for StructAbiEntry {
    type V = StructAbiEntryView;

    open spec fn view(&self) -> StructAbiEntryView {
        StructAbiEntryView {
            members: struct_member_list_view(self.members@),
            name: self.name@,
            size: self.size,
            ty: self.ty,
        }
    }
}

impl StructAbiEntryView {
    /// Lengths fit the wire format's 64-bit counts.
    pub open spec fn wf(self) -> bool {
        &&& self.members.len() <= u64::MAX
        &&& forall|j: int| 0 <= j < self.members.len() ==> (#[trigger] self.members[j]).wf()
        &&& self.name.len() <= u64::MAX
    }
}

/// A struct entry is its members, its name, its size widened to 64 bits,
/// then its marker.
pub open spec fn enc_struct_abi_entry(e: StructAbiEntryView) -> Seq<u8> {
    enc_struct_member_list(e.members) + enc_bytes(e.name) + enc_u64(e.size) + enc_struct_type(
        e.ty,
    )
}

/// Reads a struct entry.
pub open spec fn dec_struct_abi_entry(s: Seq<u8>, i: int) -> Option<(StructAbiEntryView, int)> {
    match dec_struct_member_list(s, i) {
        None => None,
        Some((members, a)) => match dec_bytes(s, a) {
            None => None,
            Some((name, b)) => match dec_u64(s, b) {
                None => None,
                Some((size, c)) => match dec_struct_type(s, c) {
                    None => None,
                    Some((ty, d)) => Some((StructAbiEntryView { members, name, size, ty }, d)),
                },
            },
        },
    }
}

/// Round trip for one struct entry.
pub proof fn lemma_dec_enc_struct_abi_entry(s: Seq<u8>, i: int, e: StructAbiEntryView)
    requires
        e.wf(),
        0 <= i,
        i + enc_struct_abi_entry(e).len() <= s.len(),
        s.subrange(i, i + enc_struct_abi_entry(e).len()) == enc_struct_abi_entry(e),
    ensures
        dec_struct_abi_entry(s, i) == Some((e, i + enc_struct_abi_entry(e).len())),
{
    crate::bebytes::lemma_be_enc_len(e.size as nat, 8);
    let e1 = enc_struct_member_list(e.members);
    let e2 = enc_bytes(e.name);
    let total = enc_struct_abi_entry(e).len() as int;
    let a = i + e1.len() as int;
    let b = a + e2.len() as int;
    let c = b + 8;
    lemma_sub_of_sub(s, i, total, 0, e1.len() as int);
    assert(s.subrange(i, a) =~= e1);
    lemma_dec_enc_struct_member_list(s, i, e.members);
    lemma_sub_of_sub(s, i, total, a - i, b - i);
    assert(s.subrange(a, b) =~= e2);
    lemma_dec_enc_bytes(s, a, e.name);
    lemma_sub_of_sub(s, i, total, b - i, c - i);
    assert(s.subrange(b, c) =~= enc_u64(e.size));
    lemma_dec_enc_u64(s, b, e.size);
    lemma_sub_of_sub(s, i, total, c - i, total);
    assert(s.subrange(c, i + total) =~= enc_struct_type(e.ty));
    assert(s[c] == enc_struct_type(e.ty)[0]);
}

/// One entry of a legacy interface: an event, a function of one of three
/// kinds, or a struct type.
#[derive(Clone, Debug, PartialEq, Eq)]
pub enum ContractClassAbiEntry {
    Event(EventAbiEntry),
    Function(FunctionAbiEntry),
    Constructor(FunctionAbiEntry),
    L1Handler(FunctionAbiEntry),
    Struct(StructAbiEntry),
}

/// The mathematical view of an interface entry.
#[verifier::ext_equal]
pub enum ContractClassAbiEntryView {
    Event(EventAbiEntryView),
    Function(FunctionAbiEntryView),
    Constructor(FunctionAbiEntryView),
    L1Handler(FunctionAbiEntryView),
    Struct(StructAbiEntryView),
}

impl View for ContractClassAbiEntry {
    type V = ContractClassAbiEntryView;

    open spec fn view(&self) -> ContractClassAbiEntryView {
        match self {
            ContractClassAbiEntry::Event(e) => ContractClassAbiEntryView::Event(e@),
            ContractClassAbiEntry::Function(e) => ContractClassAbiEntryView::Function(e@),
            ContractClassAbiEntry::Constructor(e) => ContractClassAbiEntryView::Constructor(e@),
            ContractClassAbiEntry::L1Handler(e) => ContractClassAbiEntryView::L1Handler(e@),
            ContractClassAbiEntry::Struct(e) => ContractClassAbiEntryView::Struct(e@),
        }
    }
}

impl ContractClassAbiEntryView {
    /// Lengths fit the wire format's 64-bit counts.
    pub open spec fn wf(self) -> bool {
        match self {
            ContractClassAbiEntryView::Event(e) => e.wf(),
            ContractClassAbiEntryView::Function(e) => e.wf(),
            ContractClassAbiEntryView::Constructor(e) => e.wf(),
            ContractClassAbiEntryView::L1Handler(e) => e.wf(),
            ContractClassAbiEntryView::Struct(e) => e.wf(),
        }
    }
}

/// An interface entry is its variant's discriminant byte, then the
/// variant's payload.
pub open spec fn enc_abi_entry(e: ContractClassAbiEntryView) -> Seq<u8> {
    match e {
        ContractClassAbiEntryView::Event(p) => seq![0u8] + enc_event_abi_entry(p),
        ContractClassAbiEntryView::Function(p) => seq![1u8] + enc_function_abi_entry(p),
        ContractClassAbiEntryView::Constructor(p) => seq![2u8] + enc_function_abi_entry(p),
        ContractClassAbiEntryView::L1Handler(p) => seq![3u8] + enc_function_abi_entry(p),
        ContractClassAbiEntryView::Struct(p) => seq![4u8] + enc_struct_abi_entry(p),
    }
}

/// Reads an interface entry; an unknown discriminant fails the read.
pub open spec fn dec_abi_entry(s: Seq<u8>, i: int) -> Option<(ContractClassAbiEntryView, int)> {
    match dec_u8(s, i) {
        None => None,
        Some((tag, j)) => if tag == 0 {
            match dec_event_abi_entry(s, j) {
                None => None,
                Some((p, k)) => Some((ContractClassAbiEntryView::Event(p), k)),
            }
        } else if tag == 1 {
            match dec_function_abi_entry(s, j) {
                None => None,
                Some((p, k)) => Some((ContractClassAbiEntryView::Function(p), k)),
            }
        } else if tag == 2 {
            match dec_function_abi_entry(s, j) {
                None => None,
                Some((p, k)) => Some((ContractClassAbiEntryView::Constructor(p), k)),
            }
        } else if tag == 3 {
            match dec_function_abi_entry(s, j) {
                None => None,
                Some((p, k)) => Some((ContractClassAbiEntryView::L1Handler(p), k)),
            }
        } else if tag == 4 {
            match dec_struct_abi_entry(s, j) {
                None => None,
                Some((p, k)) => Some((ContractClassAbiEntryView::Struct(p), k)),
            }
        } else {
            None
        },
    }
}

/// Round trip for one interface entry.
pub proof fn lemma_dec_enc_abi_entry(s: Seq<u8>, i: int, e: ContractClassAbiEntryView)
    requires
        e.wf(),
        0 <= i,
        i + enc_abi_entry(e).len() <= s.len(),
        s.subrange(i, i + enc_abi_entry(e).len()) == enc_abi_entry(e),
    ensures
        dec_abi_entry(s, i) == Some((e, i + enc_abi_entry(e).len())),
{
    let total = enc_abi_entry(e).len() as int;
    assert(s[i] == enc_abi_entry(e)[0]);
    lemma_sub_of_sub(s, i, total, 1, total);
    match e {
        ContractClassAbiEntryView::Event(p) => {
            assert(s.subrange(i + 1, i + total) =~= enc_event_abi_entry(p));
            lemma_dec_enc_event_abi_entry(s, i + 1, p);
        },
        ContractClassAbiEntryView::Function(p) => {
            assert(s.subrange(i + 1, i + total) =~= enc_function_abi_entry(p));
            lemma_dec_enc_function_abi_entry(s, i + 1, p);
        },
        ContractClassAbiEntryView::Constructor(p) => {
            assert(s.subrange(i + 1, i + total) =~= enc_function_abi_entry(p));
            lemma_dec_enc_function_abi_entry(s, i + 1, p);
        },
        ContractClassAbiEntryView::L1Handler(p) => {
            assert(s.subrange(i + 1, i + total) =~= enc_function_abi_entry(p));
            lemma_dec_enc_function_abi_entry(s, i + 1, p);
        },
        ContractClassAbiEntryView::Struct(p) => {
            assert(s.subrange(i + 1, i + total) =~= enc_struct_abi_entry(p));
            lemma_dec_enc_struct_abi_entry(s, i + 1, p);
        },
    }
}

/// The interface entry codec as a function value.
pub open spec fn enc_fn_abi_entry() -> spec_fn(ContractClassAbiEntryView) -> Seq<u8> {
    |e: ContractClassAbiEntryView| enc_abi_entry(e)
}

/// The interface entry decoder as a function value.
pub open spec fn dec_fn_abi_entry() -> spec_fn(Seq<u8>, int) -> Option<
    (ContractClassAbiEntryView, int),
> {
    |s: Seq<u8>, i: int| dec_abi_entry(s, i)
}

/// The specification view of an interface entry sequence.
pub open spec fn abi_list_view(s: Seq<ContractClassAbiEntry>) -> Seq<ContractClassAbiEntryView> {
    s.map_values(|e: ContractClassAbiEntry| e@)
}

/// The encoding of an interface entry sequence.
pub open spec fn enc_abi_list(s: Seq<ContractClassAbiEntryView>) -> Seq<u8> {
    enc_list(enc_fn_abi_entry(), s)
}

/// Reads an interface entry sequence.
pub open spec fn dec_abi_list(s: Seq<u8>, i: int) -> Option<
    (Seq<ContractClassAbiEntryView>, int),
> {
    dec_list(dec_fn_abi_entry(), s, i)
}

/// Appends one interface entry: its discriminant byte, then its payload.
fn write_abi_entry(out: &mut Vec<u8>, entry: &ContractClassAbiEntry)
    ensures
        final(out)@ == old(out)@ + enc_abi_entry(entry@),
{
    match entry {
        ContractClassAbiEntry::Event(p) => {
            write_u8(out, 0);
            write_typed_parameter_list(out, &p.data);
            write_typed_parameter_list(out, &p.keys);
            write_bytes(out, &p.name);
            write_u8(out, 0);
            assert(out@ =~= old(out)@ + enc_abi_entry(entry@));
        },
        ContractClassAbiEntry::Function(p) => {
            write_u8(out, 1);
            write_function_abi_entry(out, p);
            assert(out@ =~= old(out)@ + enc_abi_entry(entry@));
        },
        ContractClassAbiEntry::Constructor(p) => {
            write_u8(out, 2);
            write_function_abi_entry(out, p);
            assert(out@ =~= old(out)@ + enc_abi_entry(entry@));
        },
        ContractClassAbiEntry::L1Handler(p) => {
            write_u8(out, 3);
            write_function_abi_entry(out, p);
            assert(out@ =~= old(out)@ + enc_abi_entry(entry@));
        },
        ContractClassAbiEntry::Struct(p) => {
            write_u8(out, 4);
            write_struct_member_list(out, &p.members);
            write_bytes(out, &p.name);
            write_u64(out, p.size);
            write_u8(out, 0);
            assert(out@ =~= old(out)@ + enc_abi_entry(entry@));
        },
    }
}

/// Appends a function entry's payload.
fn write_function_abi_entry(out: &mut Vec<u8>, p: &FunctionAbiEntry)
    ensures
        final(out)@ == old(out)@ + enc_function_abi_entry(p@),
{
    write_bytes(out, &p.name);
    write_typed_parameter_list(out, &p.inputs);
    write_typed_parameter_list(out, &p.outputs);
    match p.state_mutability {
        None => write_u8(out, 0),
        Some(_) => {
            write_u8(out, 1);
            write_u8(out, 0);
        },
    }
    assert(out@ =~= old(out)@ + enc_function_abi_entry(p@));
}

/// Reads a function entry's payload, advancing the position on success.
fn read_function_abi_entry(v: &Vec<u8>, pos: &mut usize) -> (r: Option<FunctionAbiEntry>)
    ensures
        match dec_function_abi_entry(v@, *old(pos) as int) {
            Some((p, j)) => {
                &&& r matches Some(out) && out@ == p
                &&& *final(pos) == j
            },
            None => r is None,
        },
{
    let name = match read_bytes(v, pos) {
        Some(x) => x,
        None => {
            return None;
        },
    };
    let inputs = match read_typed_parameter_list(v, pos) {
        Some(x) => x,
        None => {
            return None;
        },
    };
    let outputs = match read_typed_parameter_list(v, pos) {
        Some(x) => x,
        None => {
            return None;
        },
    };
    let tag = match read_u8(v, pos) {
        Some(b) => b,
        None => {
            return None;
        },
    };
    let state_mutability = if tag == 0 {
        None
    } else if tag == 1 {
        match read_u8(v, pos) {
            Some(0) => Some(FunctionStateMutability::View),
            _ => {
                return None;
            },
        }
    } else {
        return None;
    };
    let p = FunctionAbiEntry { name, inputs, outputs, state_mutability };
    proof {
        let got = dec_function_abi_entry(v@, *old(pos) as int)->0;
        assert(p@ =~= got.0);
    }
    Some(p)
}

/// Reads one interface entry, advancing the position on success.
fn read_abi_entry(v: &Vec<u8>, pos: &mut usize) -> (r: Option<ContractClassAbiEntry>)
    ensures
        match dec_abi_entry(v@, *old(pos) as int) {
            Some((e, j)) => {
                &&& r matches Some(out) && out@ == e
                &&& *final(pos) == j
            },
            None => r is None,
        },
{
    let tag = match read_u8(v, pos) {
        Some(b) => b,
        None => {
            return None;
        },
    };
    if tag == 0 {
        let data = match read_typed_parameter_list(v, pos) {
            Some(x) => x,
            None => {
                return None;
            },
        };
        let keys = match read_typed_parameter_list(v, pos) {
            Some(x) => x,
            None => {
                return None;
            },
        };
        let name = match read_bytes(v, pos) {
            Some(x) => x,
            None => {
                return None;
            },
        };
        let ty = match read_u8(v, pos) {
            Some(0) => EventType::Event,
            _ => {
                return None;
            },
        };
        let e = ContractClassAbiEntry::Event(EventAbiEntry { data, keys, name, ty });
        proof {
            let got = dec_abi_entry(v@, *old(pos) as int)->0;
            assert(e@ =~= got.0);
        }
        Some(e)
    } else if tag == 1 {
        match read_function_abi_entry(v, pos) {
            Some(p) => Some(ContractClassAbiEntry::Function(p)),
            None => None,
        }
    } else if tag == 2 {
        match read_function_abi_entry(v, pos) {
            Some(p) => Some(ContractClassAbiEntry::Constructor(p)),
            None => None,
        }
    } else if tag == 3 {
        match read_function_abi_entry(v, pos) {
            Some(p) => Some(ContractClassAbiEntry::L1Handler(p)),
            None => None,
        }
    } else if tag == 4 {
        let members = match read_struct_member_list(v, pos) {
            Some(x) => x,
            None => {
                return None;
            },
        };
        let name = match read_bytes(v, pos) {
            Some(x) => x,
            None => {
                return None;
            },
        };
        let size = match read_u64(v, pos) {
            Some(x) => x,
            None => {
                return None;
            },
        };
        let ty = match read_u8(v, pos) {
            Some(0) => StructType::Struct,
            _ => {
                return None;
            },
        };
        let e = ContractClassAbiEntry::Struct(StructAbiEntry { members, name, size, ty });
        proof {
            let got = dec_abi_entry(v@, *old(pos) as int)->0;
            assert(e@ =~= got.0);
        }
        Some(e)
    } else {
        None
    }
}

/// Appends a length-prefixed interface entry sequence.
pub fn write_abi_list(out: &mut Vec<u8>, data: &Vec<ContractClassAbiEntry>)
    ensures
        final(out)@ == old(out)@ + enc_abi_list(abi_list_view(data@)),
{
    write_varint(out, data.len() as u64);
    let mut k: usize = 0;
    while k < data.len()
        invariant
            k <= data@.len(),
            out@ == old(out)@ + varint_enc(data@.len() as u64) + enc_elem_list(
                enc_fn_abi_entry(),
                abi_list_view(data@).subrange(0, k as int),
            ),
        decreases data@.len() - k,
    {
        write_abi_entry(out, &data[k]);
        k = k + 1;
        proof {
            let sv = abi_list_view(data@);
            assert(sv[k - 1] == data@[k - 1]@);
            assert(sv.subrange(0, k as int) =~= sv.subrange(0, k - 1).push(sv[k - 1]));
            lemma_enc_elem_list_snoc(enc_fn_abi_entry(), sv.subrange(0, k - 1), sv[k - 1]);
            assert(out@ =~= old(out)@ + varint_enc(data@.len() as u64) + enc_elem_list(
                enc_fn_abi_entry(),
                sv.subrange(0, k as int),
            ));
        }
    }
    assert(abi_list_view(data@).subrange(0, data@.len() as int) =~= abi_list_view(data@));
    assert(out@ =~= old(out)@ + enc_abi_list(abi_list_view(data@)));
}

/// Reads a length-prefixed interface entry sequence, advancing the position
/// on success.
pub fn read_abi_list(v: &Vec<u8>, pos: &mut usize) -> (r: Option<Vec<ContractClassAbiEntry>>)
    ensures
        match dec_abi_list(v@, *old(pos) as int) {
            Some((data, j)) => {
                &&& r matches Some(out) && abi_list_view(out@) == data
                &&& *final(pos) == j
            },
            None => r is None,
        },
{
    let n = match read_varint(v, pos) {
        Some(n) => n,
        None => {
            return None;
        },
    };
    let mut res: Vec<ContractClassAbiEntry> = Vec::new();
    proof {
        assert(abi_list_view(res@) =~= Seq::<ContractClassAbiEntryView>::empty());
    }
    let mut k: u64 = 0;
    while k < n
        invariant
            k <= n,
            res@.len() == k,
            dec_abi_list(v@, *old(pos) as int) == (match dec_elem_list(
                dec_fn_abi_entry(),
                v@,
                *pos as int,
                (n - k) as nat,
            ) {
                Some((rest, end)) => Some::<(Seq<ContractClassAbiEntryView>, int)>(
                    (abi_list_view(res@) + rest, end),
                ),
                None => None::<(Seq<ContractClassAbiEntryView>, int)>,
            }),
        decreases n - k,
    {
        let ghost sv_before = abi_list_view(res@);
        let e = match read_abi_entry(v, pos) {
            Some(x) => x,
            None => {
                return None;
            },
        };
        let ghost ev = e@;
        res.push(e);
        k = k + 1;
        proof {
            assert(abi_list_view(res@) =~= sv_before.push(ev));
            match dec_elem_list(dec_fn_abi_entry(), v@, *pos as int, (n - k) as nat) {
                Some((rest, end)) => {
                    assert(sv_before + (seq![ev] + rest) =~= abi_list_view(res@) + rest);
                },
                None => {},
            }
        }
    }
    proof {
        assert(abi_list_view(res@) + Seq::<ContractClassAbiEntryView>::empty() =~= abi_list_view(
            res@,
        ));
    }
    Some(res)
}

/// Round trip for interface entry sequences.
pub proof fn lemma_dec_enc_abi_list(s: Seq<u8>, i: int, data: Seq<ContractClassAbiEntryView>)
    requires
        data.len() <= u64::MAX,
        forall|j: int| 0 <= j < data.len() ==> (#[trigger] data[j]).wf(),
        0 <= i,
        i + enc_abi_list(data).len() <= s.len(),
        s.subrange(i, i + enc_abi_list(data).len()) == enc_abi_list(data),
    ensures
        dec_abi_list(s, i) == Some((data, i + enc_abi_list(data).len())),
{
    assert forall|x: ContractClassAbiEntryView, ii: int|
        x.wf() && 0 <= ii && ii + (#[trigger] enc_fn_abi_entry()(x)).len() <= s.len()
            && s.subrange(ii, ii + enc_fn_abi_entry()(x).len()) == enc_fn_abi_entry()(x)
        implies #[trigger] dec_fn_abi_entry()(s, ii) == Some::<(ContractClassAbiEntryView, int)>(
        (x, ii + enc_fn_abi_entry()(x).len()),
    ) by {
        lemma_dec_enc_abi_entry(s, ii, x);
    }
    lemma_dec_enc_list(
        dec_fn_abi_entry(),
        enc_fn_abi_entry(),
        |x: ContractClassAbiEntryView| x.wf(),
        s,
        i,
        data,
    );
}

/// An optional interface: a presence byte, then the entries if present.
pub open spec fn enc_opt_abi(o: Option<Seq<ContractClassAbiEntryView>>) -> Seq<u8> {
    match o {
        None => seq![0u8],
        Some(l) => seq![1u8] + enc_abi_list(l),
    }
}

/// Reads an optional interface; an unknown presence byte fails the read.
pub open spec fn dec_opt_abi(s: Seq<u8>, i: int) -> Option<
    (Option<Seq<ContractClassAbiEntryView>>, int),
> {
    match dec_u8(s, i) {
        None => None,
        Some((tag, j)) => if tag == 0 {
            Some((None, j))
        } else if tag == 1 {
            match dec_abi_list(s, j) {
                None => None,
                Some((l, k)) => Some((Some(l), k)),
            }
        } else {
            None
        },
    }
}

/// Appends an optional interface.
pub fn write_opt_abi(out: &mut Vec<u8>, data: &Option<Vec<ContractClassAbiEntry>>)
    ensures
        final(out)@ == old(out)@ + enc_opt_abi(match data {
            Some(l) => Some(abi_list_view(l@)),
            None => None,
        }),
{
    match data {
        None => {
            write_u8(out, 0);
            assert(out@ =~= old(out)@ + enc_opt_abi(None));
        },
        Some(l) => {
            write_u8(out, 1);
            write_abi_list(out, l);
            assert(out@ =~= old(out)@ + enc_opt_abi(Some(abi_list_view(l@))));
        },
    }
}

/// Reads an optional interface, advancing the position on success.
pub fn read_opt_abi(v: &Vec<u8>, pos: &mut usize) -> (r: Option<
    Option<Vec<ContractClassAbiEntry>>,
>)
    ensures
        match dec_opt_abi(v@, *old(pos) as int) {
            Some((o, j)) => {
                &&& r matches Some(out) && (match o {
                    Some(l) => out matches Some(ol) && abi_list_view(ol@) == l,
                    None => out is None,
                })
                &&& *final(pos) == j
            },
            None => r is None,
        },
{
    let tag = match read_u8(v, pos) {
        Some(t) => t,
        None => {
            return None;
        },
    };
    if tag == 0 {
        Some(None)
    } else if tag == 1 {
        match read_abi_list(v, pos) {
            Some(l) => Some(Some(l)),
            None => None,
        }
    } else {
        None
    }
}

/// Round trip for optional interfaces.
pub proof fn lemma_dec_enc_opt_abi(s: Seq<u8>, i: int, o: Option<Seq<ContractClassAbiEntryView>>)
    requires
        0 <= i,
        i + enc_opt_abi(o).len() <= s.len(),
        s.subrange(i, i + enc_opt_abi(o).len()) == enc_opt_abi(o),
        o matches Some(l) ==> l.len() <= u64::MAX && forall|j: int|
            0 <= j < l.len() ==> (#[trigger] l[j]).wf(),
    ensures
        dec_opt_abi(s, i) == Some((o, i + enc_opt_abi(o).len())),
{
    assert(s[i] == enc_opt_abi(o)[0]);
    match o {
        None => {},
        Some(l) => {
            let total = enc_opt_abi(o).len() as int;
            lemma_sub_of_sub(s, i, total, 1, total);
            assert(s.subrange(i + 1, i + total) =~= enc_abi_list(l));
            lemma_dec_enc_abi_list(s, i + 1, l);
        },
    }
}

/// A legacy contract class: an optional structured interface and the
/// program text, compressed together for better ratios, and the entry
/// points by type, raw.
#[derive(Clone, Debug, PartialEq, Eq)]
pub struct DeprecatedContractClass {
    pub abi: Option<Vec<ContractClassAbiEntry>>,
    pub program: Vec<u8>,
    pub entry_points_by_type: Vec<(EntryPointType, Vec<DeprecatedEntryPoint>)>,
}

/// The mathematical view of a legacy class.
#[verifier::ext_equal]
pub struct DeprecatedContractClassView {
    pub abi: Option<Seq<ContractClassAbiEntryView>>,
    pub program: Seq<u8>,
    pub entry_points_by_type: Seq<(EntryPointType, Seq<DeprecatedEntryPoint>)>,
}

impl View for DeprecatedContractClass {
    type V = DeprecatedContractClassView;

    open spec fn view(&self) -> DeprecatedContractClassView {
        DeprecatedContractClassView {
            abi: match self.abi {
                Some(l) => Some(abi_list_view(l@)),
                None => None,
            },
            program: self.program@,
            entry_points_by_type: dep_ep_map_view(self.entry_points_by_type@),
        }
    }
}

impl DeprecatedContractClassView {
    /// Entry point types are unique, and lengths fit the wire format's
    /// 64-bit counts.
    pub open spec fn wf(self) -> bool {
        &&& (self.abi matches Some(l) ==> l.len() <= u64::MAX && forall|j: int|
            0 <= j < l.len() ==> (#[trigger] l[j]).wf())
        &&& self.program.len() <= u64::MAX
        &&& crate::pairs::unique_keys(self.entry_points_by_type)
        &&& self.entry_points_by_type.len() <= u64::MAX
        &&& forall|j: int|
            0 <= j < self.entry_points_by_type.len() ==> (#[trigger] self.entry_points_by_type[j]).1.len()
                <= u64::MAX
    }
}

/// The buffer compressed for a legacy class: its interface and program.
pub open spec fn enc_deprecated_inner(c: DeprecatedContractClassView) -> Seq<u8> {
    enc_opt_abi(c.abi) + enc_bytes(c.program)
}

/// Reads a stored legacy class: the compressed interface and program block,
/// then the entry points from the outer stream.
pub open spec fn dec_deprecated_contract_class(s: Seq<u8>, i: int) -> Option<
    (DeprecatedContractClassView, int),
> {
    match dec_bytes(s, i) {
        None => None,
        Some((comp, a)) => match zstd_inflate(comp, MAX_DECOMPRESSED_SIZE as nat) {
            None => None,
            Some(inner) => match dec_opt_abi(inner, 0) {
                None => None,
                Some((abi, p1)) => match dec_bytes(inner, p1) {
                    None => None,
                    Some((program, _p2)) => match dec_dep_ep_map(s, a) {
                        None => None,
                        Some((entry_points_by_type, b)) => Some(
                            (DeprecatedContractClassView { abi, program, entry_points_by_type }, b),
                        ),
                    },
                },
            },
        },
    }
}

impl DeprecatedContractClass {
    /// Serializes this class: interface and program compressed together,
    /// then the entry points raw.
    pub fn serialize_into(&self, out: &mut Vec<u8>) -> (r: Result<(), StorageError>)
        ensures
            match r {
                Ok(_) => exists|c: Seq<u8>|
                    #![trigger enc_bytes(c)]
                    {
                        &&& final(out)@ == old(out)@ + enc_bytes(c) + enc_dep_ep_map(
                            self@.entry_points_by_type,
                        )
                        &&& c.len() <= u64::MAX
                        &&& enc_deprecated_inner(self@).len() <= MAX_DECOMPRESSED_SIZE
                            ==> zstd_inflate(c, MAX_DECOMPRESSED_SIZE as nat) == Some(
                            enc_deprecated_inner(self@),
                        )
                    },
                Err(e) => *final(out) == *old(out) && e == StorageError::Compression,
            },
    {
        // Compress the interface and program together for better results.
        let mut to_compress: Vec<u8> = Vec::new();
        write_opt_abi(&mut to_compress, &self.abi);
        write_bytes(&mut to_compress, &self.program);
        assert(to_compress@ =~= enc_deprecated_inner(self@));
        let compressed = match compress(&to_compress) {
            Some(c) => c,
            None => {
                return Err(StorageError::Compression);
            },
        };
        let clen: usize = compressed.len();
        write_bytes(out, &compressed);
        write_dep_ep_map(out, &self.entry_points_by_type);
        proof {
            assert(compressed@.len() == clen);
            assert(out@ =~= old(out)@ + enc_bytes(compressed@) + enc_dep_ep_map(
                self@.entry_points_by_type,
            ));
        }
        Ok(())
    }

    /// Reads a stored legacy class, advancing the position on success.
    pub fn deserialize_from(v: &Vec<u8>, pos: &mut usize) -> (r: Option<DeprecatedContractClass>)
        ensures
            match dec_deprecated_contract_class(v@, *old(pos) as int) {
                Some((cls, j)) => {
                    &&& r matches Some(out) && out@ == cls
                    &&& *final(pos) == j
                },
                None => r is None,
            },
    {
        let compressed = match read_bytes(v, pos) {
            Some(c) => c,
            None => {
                return None;
            },
        };
        let data = match decompress(&compressed) {
            Some(d) => d,
            None => {
                return None;
            },
        };
        let mut ipos: usize = 0;
        let abi = match read_opt_abi(&data, &mut ipos) {
            Some(x) => x,
            None => {
                return None;
            },
        };
        let program = match read_bytes(&data, &mut ipos) {
            Some(x) => x,
            None => {
                return None;
            },
        };
        let entry_points_by_type = match read_dep_ep_map(v, pos) {
            Some(x) => x,
            None => {
                return None;
            },
        };
        let cls = DeprecatedContractClass { abi, program, entry_points_by_type };
        proof {
            let got = dec_deprecated_contract_class(v@, *old(pos) as int)->0;
            assert(cls@ =~= got.0);
        }
        Some(cls)
    }
}

/// A serialized legacy class reads back as itself, for bodies within the
/// expansion bound.
#[verifier::rlimit(100)]
pub proof fn lemma_deprecated_body_decodes(
    body: Seq<u8>,
    c: Seq<u8>,
    cls: DeprecatedContractClassView,
)
    requires
        cls.wf(),
        body == enc_bytes(c) + enc_dep_ep_map(cls.entry_points_by_type),
        c.len() <= u64::MAX,
        zstd_inflate(c, MAX_DECOMPRESSED_SIZE as nat) == Some(enc_deprecated_inner(cls)),
    ensures
        dec_deprecated_contract_class(body, 0) == Some((cls, body.len() as int)),
{
    let e1 = enc_bytes(c);
    let total = body.len() as int;
    lemma_sub_of_sub(body, 0, total, 0, e1.len() as int);
    assert(body.subrange(0, e1.len() as int) =~= e1);
    lemma_dec_enc_bytes(body, 0, c);
    let inner = enc_deprecated_inner(cls);
    let p1 = enc_opt_abi(cls.abi).len() as int;
    lemma_sub_of_sub(inner, 0, inner.len() as int, 0, p1);
    assert(inner.subrange(0, p1) =~= enc_opt_abi(cls.abi));
    lemma_dec_enc_opt_abi(inner, 0, cls.abi);
    lemma_sub_of_sub(inner, 0, inner.len() as int, p1, inner.len() as int);
    assert(inner.subrange(p1, inner.len() as int) =~= enc_bytes(cls.program));
    lemma_dec_enc_bytes(inner, p1, cls.program);
    lemma_sub_of_sub(body, 0, total, e1.len() as int, total);
    assert(body.subrange(e1.len() as int, total) =~= enc_dep_ep_map(cls.entry_points_by_type));
    lemma_dec_enc_dep_ep_map(body, e1.len() as int, cls.entry_points_by_type);
}

// ---------------------------------------------------------------------------
// Compiled class bodies.
// ---------------------------------------------------------------------------
/// The byte-string codec as a function value: raw numeric blobs and text.
pub open spec fn enc_fn_bytes() -> spec_fn(Seq<u8>) -> Seq<u8> {
    |b: Seq<u8>| enc_bytes(b)
}

/// The byte-string decoder as a function value.
pub open spec fn dec_fn_bytes() -> spec_fn(Seq<u8>, int) -> Option<(Seq<u8>, int)> {
    |s: Seq<u8>, i: int| dec_bytes(s, i)
}

/// The specification view of a sequence of byte strings.
pub open spec fn bytes_list_view(s: Seq<Vec<u8>>) -> Seq<Seq<u8>> {
    s.map_values(|b: Vec<u8>| b@)
}

/// The encoding of a sequence of byte strings.
pub open spec fn enc_bytes_list(s: Seq<Seq<u8>>) -> Seq<u8> {
    enc_list(enc_fn_bytes(), s)
}

/// Reads a sequence of byte strings.
pub open spec fn dec_bytes_list(s: Seq<u8>, i: int) -> Option<(Seq<Seq<u8>>, int)> {
    dec_list(dec_fn_bytes(), s, i)
}

/// Appends a length-prefixed sequence of byte strings.
pub fn write_bytes_list(out: &mut Vec<u8>, data: &Vec<Vec<u8>>)
    ensures
        final(out)@ == old(out)@ + enc_bytes_list(bytes_list_view(data@)),
{
    write_varint(out, data.len() as u64);
    let mut k: usize = 0;
    while k < data.len()
        invariant
            k <= data@.len(),
            out@ == old(out)@ + varint_enc(data@.len() as u64) + enc_elem_list(
                enc_fn_bytes(),
                bytes_list_view(data@).subrange(0, k as int),
            ),
        decreases data@.len() - k,
    {
        write_bytes(out, &data[k]);
        k = k + 1;
        proof {
            let sv = bytes_list_view(data@);
            assert(sv[k - 1] == data@[k - 1]@);
            assert(sv.subrange(0, k as int) =~= sv.subrange(0, k - 1).push(sv[k - 1]));
            lemma_enc_elem_list_snoc(enc_fn_bytes(), sv.subrange(0, k - 1), sv[k - 1]);
            assert(out@ =~= old(out)@ + varint_enc(data@.len() as u64) + enc_elem_list(
                enc_fn_bytes(),
                sv.subrange(0, k as int),
            ));
        }
    }
    assert(bytes_list_view(data@).subrange(0, data@.len() as int) =~= bytes_list_view(data@));
    assert(out@ =~= old(out)@ + enc_bytes_list(bytes_list_view(data@)));
}

/// Reads a length-prefixed sequence of byte strings, advancing the position
/// on success.
pub fn read_bytes_list(v: &Vec<u8>, pos: &mut usize) -> (r: Option<Vec<Vec<u8>>>)
    ensures
        match dec_bytes_list(v@, *old(pos) as int) {
            Some((data, j)) => {
                &&& r matches Some(out) && bytes_list_view(out@) == data
                &&& *final(pos) == j
            },
            None => r is None,
        },
{
    let n = match read_varint(v, pos) {
        Some(n) => n,
        None => {
            return None;
        },
    };
    let mut res: Vec<Vec<u8>> = Vec::new();
    proof {
        assert(bytes_list_view(res@) =~= Seq::<Seq<u8>>::empty());
    }
    let mut k: u64 = 0;
    while k < n
        invariant
            k <= n,
            res@.len() == k,
            dec_bytes_list(v@, *old(pos) as int) == (match dec_elem_list(
                dec_fn_bytes(),
                v@,
                *pos as int,
                (n - k) as nat,
            ) {
                Some((rest, end)) => Some::<(Seq<Seq<u8>>, int)>(
                    (bytes_list_view(res@) + rest, end),
                ),
                None => None::<(Seq<Seq<u8>>, int)>,
            }),
        decreases n - k,
    {
        let ghost sv_before = bytes_list_view(res@);
        let b = match read_bytes(v, pos) {
            Some(x) => x,
            None => {
                return None;
            },
        };
        let ghost bv = b@;
        res.push(b);
        k = k + 1;
        proof {
            assert(bytes_list_view(res@) =~= sv_before.push(bv));
            match dec_elem_list(dec_fn_bytes(), v@, *pos as int, (n - k) as nat) {
                Some((rest, end)) => {
                    assert(sv_before + (seq![bv] + rest) =~= bytes_list_view(res@) + rest);
                },
                None => {},
            }
        }
    }
    proof {
        assert(bytes_list_view(res@) + Seq::<Seq<u8>>::empty() =~= bytes_list_view(res@));
    }
    Some(res)
}

/// Round trip for sequences of byte strings within the count bound.
pub proof fn lemma_dec_enc_bytes_list(s: Seq<u8>, i: int, data: Seq<Seq<u8>>)
    requires
        data.len() <= u64::MAX,
        forall|j: int| 0 <= j < data.len() ==> (#[trigger] data[j]).len() <= u64::MAX,
        0 <= i,
        i + enc_bytes_list(data).len() <= s.len(),
        s.subrange(i, i + enc_bytes_list(data).len()) == enc_bytes_list(data),
    ensures
        dec_bytes_list(s, i) == Some((data, i + enc_bytes_list(data).len())),
{
    assert forall|x: Seq<u8>, ii: int|
        (x.len() <= u64::MAX) && 0 <= ii && ii + (#[trigger] enc_fn_bytes()(x)).len() <= s.len()
            && s.subrange(ii, ii + enc_fn_bytes()(x).len()) == enc_fn_bytes()(x)
        implies #[trigger] dec_fn_bytes()(s, ii) == Some::<(Seq<u8>, int)>(
        (x, ii + enc_fn_bytes()(x).len()),
    ) by {
        lemma_dec_enc_bytes(s, ii, x);
    }
    lemma_dec_enc_list(
        dec_fn_bytes(),
        enc_fn_bytes(),
        |x: Seq<u8>| x.len() <= u64::MAX,
        s,
        i,
        data,
    );
}

/// One code offset's hints: the offset, widened to 64 bits, and each hint
/// as its own encoded byte blob.
#[derive(Clone, Debug, PartialEq, Eq)]
pub struct HintEntry {
    pub offset: u64,
    pub hints: Vec<Vec<u8>>,
}

/// The mathematical view of a hint entry.
#[verifier::ext_equal]
pub struct HintEntryView {
    pub offset: u64,
    pub hints: Seq<Seq<u8>>,
}

impl View for HintEntry {
    type V = HintEntryView;

    open spec fn view(&self) -> HintEntryView {
        HintEntryView { offset: self.offset, hints: bytes_list_view(self.hints@) }
    }
}

impl HintEntryView {
    /// Lengths fit the wire format's 64-bit counts.
    pub open spec fn wf(self) -> bool {
        &&& self.hints.len() <= u64::MAX
        &&& forall|j: int| 0 <= j < self.hints.len() ==> (#[trigger] self.hints[j]).len() <= u64::MAX
    }
}

/// A hint entry is its offset, then its hint blobs.
pub open spec fn enc_hint_entry(e: HintEntryView) -> Seq<u8> {
    enc_u64(e.offset) + enc_bytes_list(e.hints)
}

/// Reads a hint entry.
pub open spec fn dec_hint_entry(s: Seq<u8>, i: int) -> Option<(HintEntryView, int)> {
    match dec_u64(s, i) {
        None => None,
        Some((offset, a)) => match dec_bytes_list(s, a) {
            None => None,
            Some((hints, b)) => Some((HintEntryView { offset, hints }, b)),
        },
    }
}

/// Round trip for one hint entry.
pub proof fn lemma_dec_enc_hint_entry(s: Seq<u8>, i: int, e: HintEntryView)
    requires
        e.wf(),
        0 <= i,
        i + enc_hint_entry(e).len() <= s.len(),
        s.subrange(i, i + enc_hint_entry(e).len()) == enc_hint_entry(e),
    ensures
        dec_hint_entry(s, i) == Some((e, i + enc_hint_entry(e).len())),
{
    crate::bebytes::lemma_be_enc_len(e.offset as nat, 8);
    let e1 = enc_u64(e.offset);
    let e2 = enc_bytes_list(e.hints);
    let total = enc_hint_entry(e).len() as int;
    let a = i + 8;
    lemma_sub_of_sub(s, i, total, 0, 8);
    assert(s.subrange(i, a) =~= e1);
    lemma_dec_enc_u64(s, i, e.offset);
    lemma_sub_of_sub(s, i, total, 8, total);
    assert(s.subrange(a, i + total) =~= e2);
    lemma_dec_enc_bytes_list(s, a, e.hints);
}

/// The hint entry codec as a function value.
pub open spec fn enc_fn_hint_entry() -> spec_fn(HintEntryView) -> Seq<u8> {
    |e: HintEntryView| enc_hint_entry(e)
}

/// The hint entry decoder as a function value.
pub open spec fn dec_fn_hint_entry() -> spec_fn(Seq<u8>, int) -> Option<(HintEntryView, int)> {
    |s: Seq<u8>, i: int| dec_hint_entry(s, i)
}

/// The specification view of a hint entry sequence.
pub open spec fn hint_list_view(s: Seq<HintEntry>) -> Seq<HintEntryView> {
    s.map_values(|e: HintEntry| e@)
}

/// The encoding of a hint entry sequence.
pub open spec fn enc_hint_list(s: Seq<HintEntryView>) -> Seq<u8> {
    enc_list(enc_fn_hint_entry(), s)
}

/// Reads a hint entry sequence.
pub open spec fn dec_hint_list(s: Seq<u8>, i: int) -> Option<(Seq<HintEntryView>, int)> {
    dec_list(dec_fn_hint_entry(), s, i)
}

/// Appends a length-prefixed hint entry sequence.
pub fn write_hint_list(out: &mut Vec<u8>, data: &Vec<HintEntry>)
    ensures
        final(out)@ == old(out)@ + enc_hint_list(hint_list_view(data@)),
{
    write_varint(out, data.len() as u64);
    let mut k: usize = 0;
    while k < data.len()
        invariant
            k <= data@.len(),
            out@ == old(out)@ + varint_enc(data@.len() as u64) + enc_elem_list(
                enc_fn_hint_entry(),
                hint_list_view(data@).subrange(0, k as int),
            ),
        decreases data@.len() - k,
    {
        write_u64(out, data[k].offset);
        write_bytes_list(out, &data[k].hints);
        k = k + 1;
        proof {
            let sv = hint_list_view(data@);
            assert(sv[k - 1] == data@[k - 1]@);
            assert(sv.subrange(0, k as int) =~= sv.subrange(0, k - 1).push(sv[k - 1]));
            lemma_enc_elem_list_snoc(enc_fn_hint_entry(), sv.subrange(0, k - 1), sv[k - 1]);
            assert(out@ =~= old(out)@ + varint_enc(data@.len() as u64) + enc_elem_list(
                enc_fn_hint_entry(),
                sv.subrange(0, k as int),
            ));
        }
    }
    assert(hint_list_view(data@).subrange(0, data@.len() as int) =~= hint_list_view(data@));
    assert(out@ =~= old(out)@ + enc_hint_list(hint_list_view(data@)));
}

/// Reads a length-prefixed hint entry sequence, advancing the position on
/// success.
pub fn read_hint_list(v: &Vec<u8>, pos: &mut usize) -> (r: Option<Vec<HintEntry>>)
    ensures
        match dec_hint_list(v@, *old(pos) as int) {
            Some((data, j)) => {
                &&& r matches Some(out) && hint_list_view(out@) == data
                &&& *final(pos) == j
            },
            None => r is None,
        },
{
    let n = match read_varint(v, pos) {
        Some(n) => n,
        None => {
            return None;
        },
    };
    let mut res: Vec<HintEntry> = Vec::new();
    proof {
        assert(hint_list_view(res@) =~= Seq::<HintEntryView>::empty());
    }
    let mut k: u64 = 0;
    while k < n
        invariant
            k <= n,
            res@.len() == k,
            dec_hint_list(v@, *old(pos) as int) == (match dec_elem_list(
                dec_fn_hint_entry(),
                v@,
                *pos as int,
                (n - k) as nat,
            ) {
                Some((rest, end)) => Some::<(Seq<HintEntryView>, int)>(
                    (hint_list_view(res@) + rest, end),
                ),
                None => None::<(Seq<HintEntryView>, int)>,
            }),
        decreases n - k,
    {
        let ghost sv_before = hint_list_view(res@);
        let offset = match read_u64(v, pos) {
            Some(x) => x,
            None => {
                return None;
            },
        };
        let hints = match read_bytes_list(v, pos) {
            Some(x) => x,
            None => {
                return None;
            },
        };
        let e = HintEntry { offset, hints };
        let ghost ev = e@;
        res.push(e);
        k = k + 1;
        proof {
            assert(hint_list_view(res@) =~= sv_before.push(ev));
            match dec_elem_list(dec_fn_hint_entry(), v@, *pos as int, (n - k) as nat) {
                Some((rest, end)) => {
                    assert(sv_before + (seq![ev] + rest) =~= hint_list_view(res@) + rest);
                },
                None => {},
            }
        }
    }
    proof {
        assert(hint_list_view(res@) + Seq::<HintEntryView>::empty() =~= hint_list_view(res@));
    }
    Some(res)
}

/// Round trip for hint entry sequences.
pub proof fn lemma_dec_enc_hint_list(s: Seq<u8>, i: int, data: Seq<HintEntryView>)
    requires
        data.len() <= u64::MAX,
        forall|j: int| 0 <= j < data.len() ==> (#[trigger] data[j]).wf(),
        0 <= i,
        i + enc_hint_list(data).len() <= s.len(),
        s.subrange(i, i + enc_hint_list(data).len()) == enc_hint_list(data),
    ensures
        dec_hint_list(s, i) == Some((data, i + enc_hint_list(data).len())),
{
    assert forall|x: HintEntryView, ii: int|
        x.wf() && 0 <= ii && ii + (#[trigger] enc_fn_hint_entry()(x)).len() <= s.len()
            && s.subrange(ii, ii + enc_fn_hint_entry()(x).len()) == enc_fn_hint_entry()(x)
        implies #[trigger] dec_fn_hint_entry()(s, ii) == Some::<(HintEntryView, int)>(
        (x, ii + enc_fn_hint_entry()(x).len()),
    ) by {
        lemma_dec_enc_hint_entry(s, ii, x);
    }
    lemma_dec_enc_list(
        dec_fn_hint_entry(),
        enc_fn_hint_entry(),
        |x: HintEntryView| x.wf(),
        s,
        i,
        data,
    );
}

/// An optional hint entry sequence: a presence byte, then the sequence if
/// present.
pub open spec fn enc_opt_hint_list(o: Option<Seq<HintEntryView>>) -> Seq<u8> {
    match o {
        None => seq![0u8],
        Some(s) => seq![1u8] + enc_hint_list(s),
    }
}

/// Reads an optional hint entry sequence; an unknown presence byte fails
/// the read.
pub open spec fn dec_opt_hint_list(s: Seq<u8>, i: int) -> Option<
    (Option<Seq<HintEntryView>>, int),
> {
    match dec_u8(s, i) {
        None => None,
        Some((tag, j)) => if tag == 0 {
            Some((None, j))
        } else if tag == 1 {
            match dec_hint_list(s, j) {
                None => None,
                Some((l, k)) => Some((Some(l), k)),
            }
        } else {
            None
        },
    }
}

/// Appends an optional hint entry sequence.
pub fn write_opt_hint_list(out: &mut Vec<u8>, data: &Option<Vec<HintEntry>>)
    ensures
        final(out)@ == old(out)@ + enc_opt_hint_list(match data {
            Some(l) => Some(hint_list_view(l@)),
            None => None,
        }),
{
    match data {
        None => {
            write_u8(out, 0);
            assert(out@ =~= old(out)@ + enc_opt_hint_list(None));
        },
        Some(l) => {
            write_u8(out, 1);
            write_hint_list(out, l);
            assert(out@ =~= old(out)@ + enc_opt_hint_list(Some(hint_list_view(l@))));
        },
    }
}

/// Reads an optional hint entry sequence, advancing the position on
/// success.
pub fn read_opt_hint_list(v: &Vec<u8>, pos: &mut usize) -> (r: Option<Option<Vec<HintEntry>>>)
    ensures
        match dec_opt_hint_list(v@, *old(pos) as int) {
            Some((o, j)) => {
                &&& r matches Some(out) && (match o {
                    Some(l) => out matches Some(ol) && hint_list_view(ol@) == l,
                    None => out is None,
                })
                &&& *final(pos) == j
            },
            None => r is None,
        },
{
    let tag = match read_u8(v, pos) {
        Some(t) => t,
        None => {
            return None;
        },
    };
    if tag == 0 {
        Some(None)
    } else if tag == 1 {
        match read_hint_list(v, pos) {
            Some(l) => Some(Some(l)),
            None => None,
        }
    } else {
        None
    }
}

/// Round trip for optional hint entry sequences.
pub proof fn lemma_dec_enc_opt_hint_list(s: Seq<u8>, i: int, o: Option<Seq<HintEntryView>>)
    requires
        0 <= i,
        i + enc_opt_hint_list(o).len() <= s.len(),
        s.subrange(i, i + enc_opt_hint_list(o).len()) == enc_opt_hint_list(o),
        o matches Some(l) ==> l.len() <= u64::MAX && forall|j: int|
            0 <= j < l.len() ==> (#[trigger] l[j]).wf(),
    ensures
        dec_opt_hint_list(s, i) == Some((o, i + enc_opt_hint_list(o).len())),
{
    assert(s[i] == enc_opt_hint_list(o)[0]);
    match o {
        None => {},
        Some(l) => {
            let total = enc_opt_hint_list(o).len() as int;
            lemma_sub_of_sub(s, i, total, 1, total);
            assert(s.subrange(i + 1, i + total) =~= enc_hint_list(l));
            lemma_dec_enc_hint_list(s, i + 1, l);
        },
    }
}

/// An entry point of a compiled class: its selector as a raw big-endian
/// numeric blob, its code offset, and the builtins it needs, as text.
#[derive(Clone, Debug, PartialEq, Eq)]
pub struct CasmContractEntryPoint {
    pub selector: Vec<u8>,
    pub offset: u64,
    pub builtins: Vec<Vec<u8>>,
}

/// The mathematical view of a compiled entry point.
#[verifier::ext_equal]
pub struct CasmContractEntryPointView {
    pub selector: Seq<u8>,
    pub offset: u64,
    pub builtins: Seq<Seq<u8>>,
}

impl View for CasmContractEntryPoint {
    type V = CasmContractEntryPointView;

    open spec fn view(&self) -> CasmContractEntryPointView {
        CasmContractEntryPointView {
            selector: self.selector@,
            offset: self.offset,
            builtins: bytes_list_view(self.builtins@),
        }
    }
}

impl CasmContractEntryPointView {
    /// Lengths fit the wire format's 64-bit counts.
    pub open spec fn wf(self) -> bool {
        &&& self.selector.len() <= u64::MAX
        &&& self.builtins.len() <= u64::MAX
        &&& forall|j: int| 0 <= j < self.builtins.len() ==> (#[trigger] self.builtins[j]).len() <= u64::MAX
    }
}

/// A compiled entry point is its selector blob, its offset widened to 64
/// bits, then its builtins.
pub open spec fn enc_casm_entry_point(e: CasmContractEntryPointView) -> Seq<u8> {
    enc_bytes(e.selector) + enc_u64(e.offset) + enc_bytes_list(e.builtins)
}

/// Reads a compiled entry point.
pub open spec fn dec_casm_entry_point(s: Seq<u8>, i: int) -> Option<
    (CasmContractEntryPointView, int),
> {
    match dec_bytes(s, i) {
        None => None,
        Some((selector, a)) => match dec_u64(s, a) {
            None => None,
            Some((offset, b)) => match dec_bytes_list(s, b) {
                None => None,
                Some((builtins, c)) => Some(
                    (CasmContractEntryPointView { selector, offset, builtins }, c),
                ),
            },
        },
    }
}

/// Round trip for one compiled entry point.
pub proof fn lemma_dec_enc_casm_entry_point(s: Seq<u8>, i: int, e: CasmContractEntryPointView)
    requires
        e.wf(),
        0 <= i,
        i + enc_casm_entry_point(e).len() <= s.len(),
        s.subrange(i, i + enc_casm_entry_point(e).len()) == enc_casm_entry_point(e),
    ensures
        dec_casm_entry_point(s, i) == Some((e, i + enc_casm_entry_point(e).len())),
{
    crate::bebytes::lemma_be_enc_len(e.offset as nat, 8);
    let e1 = enc_bytes(e.selector);
    let e2 = enc_u64(e.offset);
    let e3 = enc_bytes_list(e.builtins);
    let total = enc_casm_entry_point(e).len() as int;
    let a = i + e1.len() as int;
    let b = a + 8;
    lemma_sub_of_sub(s, i, total, 0, e1.len() as int);
    assert(s.subrange(i, a) =~= e1);
    lemma_dec_enc_bytes(s, i, e.selector);
    lemma_sub_of_sub(s, i, total, e1.len() as int, (e1.len() + 8) as int);
    assert(s.subrange(a, b) =~= e2);
    lemma_dec_enc_u64(s, a, e.offset);
    lemma_sub_of_sub(s, i, total, (e1.len() + 8) as int, total);
    assert(s.subrange(b, i + total) =~= e3);
    lemma_dec_enc_bytes_list(s, b, e.builtins);
}

/// The compiled entry point codec as a function value.
pub open spec fn enc_fn_casm_entry_point() -> spec_fn(CasmContractEntryPointView) -> Seq<u8> {
    |e: CasmContractEntryPointView| enc_casm_entry_point(e)
}

/// The compiled entry point decoder as a function value.
pub open spec fn dec_fn_casm_entry_point() -> spec_fn(Seq<u8>, int) -> Option<
    (CasmContractEntryPointView, int),
> {
    |s: Seq<u8>, i: int| dec_casm_entry_point(s, i)
}

/// The specification view of a compiled entry point sequence.
pub open spec fn casm_ep_list_view(s: Seq<CasmContractEntryPoint>) -> Seq<
    CasmContractEntryPointView,
> {
    s.map_values(|e: CasmContractEntryPoint| e@)
}

/// The encoding of a compiled entry point sequence.
pub open spec fn enc_casm_entry_point_list(s: Seq<CasmContractEntryPointView>) -> Seq<u8> {
    enc_list(enc_fn_casm_entry_point(), s)
}

/// Reads a compiled entry point sequence.
pub open spec fn dec_casm_entry_point_list(s: Seq<u8>, i: int) -> Option<
    (Seq<CasmContractEntryPointView>, int),
> {
    dec_list(dec_fn_casm_entry_point(), s, i)
}

/// Appends a length-prefixed compiled entry point sequence.
pub fn write_casm_entry_point_list(out: &mut Vec<u8>, data: &Vec<CasmContractEntryPoint>)
    ensures
        final(out)@ == old(out)@ + enc_casm_entry_point_list(casm_ep_list_view(data@)),
{
    write_varint(out, data.len() as u64);
    let mut k: usize = 0;
    while k < data.len()
        invariant
            k <= data@.len(),
            out@ == old(out)@ + varint_enc(data@.len() as u64) + enc_elem_list(
                enc_fn_casm_entry_point(),
                casm_ep_list_view(data@).subrange(0, k as int),
            ),
        decreases data@.len() - k,
    {
        write_bytes(out, &data[k].selector);
        write_u64(out, data[k].offset);
        write_bytes_list(out, &data[k].builtins);
        k = k + 1;
        proof {
            let sv = casm_ep_list_view(data@);
            assert(sv[k - 1] == data@[k - 1]@);
            assert(sv.subrange(0, k as int) =~= sv.subrange(0, k - 1).push(sv[k - 1]));
            lemma_enc_elem_list_snoc(enc_fn_casm_entry_point(), sv.subrange(0, k - 1), sv[k - 1]);
            assert(out@ =~= old(out)@ + varint_enc(data@.len() as u64) + enc_elem_list(
                enc_fn_casm_entry_point(),
                sv.subrange(0, k as int),
            ));
        }
    }
    assert(casm_ep_list_view(data@).subrange(0, data@.len() as int) =~= casm_ep_list_view(data@));
    assert(out@ =~= old(out)@ + enc_casm_entry_point_list(casm_ep_list_view(data@)));
}

/// Reads a length-prefixed compiled entry point sequence, advancing the
/// position on success.
pub fn read_casm_entry_point_list(v: &Vec<u8>, pos: &mut usize) -> (r: Option<
    Vec<CasmContractEntryPoint>,
>)
    ensures
        match dec_casm_entry_point_list(v@, *old(pos) as int) {
            Some((data, j)) => {
                &&& r matches Some(out) && casm_ep_list_view(out@) == data
                &&& *final(pos) == j
            },
            None => r is None,
        },
{
    let n = match read_varint(v, pos) {
        Some(n) => n,
        None => {
            return None;
        },
    };
    let mut res: Vec<CasmContractEntryPoint> = Vec::new();
    proof {
        assert(casm_ep_list_view(res@) =~= Seq::<CasmContractEntryPointView>::empty());
    }
    let mut k: u64 = 0;
    while k < n
        invariant
            k <= n,
            res@.len() == k,
            dec_casm_entry_point_list(v@, *old(pos) as int) == (match dec_elem_list(
                dec_fn_casm_entry_point(),
                v@,
                *pos as int,
                (n - k) as nat,
            ) {
                Some((rest, end)) => Some::<(Seq<CasmContractEntryPointView>, int)>(
                    (casm_ep_list_view(res@) + rest, end),
                ),
                None => None::<(Seq<CasmContractEntryPointView>, int)>,
            }),
        decreases n - k,
    {
        let ghost sv_before = casm_ep_list_view(res@);
        let selector = match read_bytes(v, pos) {
            Some(x) => x,
            None => {
                return None;
            },
        };
        let offset = match read_u64(v, pos) {
            Some(x) => x,
            None => {
                return None;
            },
        };
        let builtins = match read_bytes_list(v, pos) {
            Some(x) => x,
            None => {
                return None;
            },
        };
        let e = CasmContractEntryPoint { selector, offset, builtins };
        let ghost ev = e@;
        res.push(e);
        k = k + 1;
        proof {
            assert(casm_ep_list_view(res@) =~= sv_before.push(ev));
            match dec_elem_list(dec_fn_casm_entry_point(), v@, *pos as int, (n - k) as nat) {
                Some((rest, end)) => {
                    assert(sv_before + (seq![ev] + rest) =~= casm_ep_list_view(res@) + rest);
                },
                None => {},
            }
        }
    }
    proof {
        assert(casm_ep_list_view(res@) + Seq::<CasmContractEntryPointView>::empty()
            =~= casm_ep_list_view(res@));
    }
    Some(res)
}

/// Round trip for compiled entry point sequences.
pub proof fn lemma_dec_enc_casm_entry_point_list(
    s: Seq<u8>,
    i: int,
    data: Seq<CasmContractEntryPointView>,
)
    requires
        data.len() <= u64::MAX,
        forall|j: int| 0 <= j < data.len() ==> (#[trigger] data[j]).wf(),
        0 <= i,
        i + enc_casm_entry_point_list(data).len() <= s.len(),
        s.subrange(i, i + enc_casm_entry_point_list(data).len()) == enc_casm_entry_point_list(
            data,
        ),
    ensures
        dec_casm_entry_point_list(s, i) == Some(
            (data, i + enc_casm_entry_point_list(data).len()),
        ),
{
    assert forall|x: CasmContractEntryPointView, ii: int|
        x.wf() && 0 <= ii && ii + (#[trigger] enc_fn_casm_entry_point()(x)).len() <= s.len()
            && s.subrange(ii, ii + enc_fn_casm_entry_point()(x).len()) == enc_fn_casm_entry_point()(
            x,
        ) implies #[trigger] dec_fn_casm_entry_point()(s, ii) == Some::<
        (CasmContractEntryPointView, int),
    >((x, ii + enc_fn_casm_entry_point()(x).len())) by {
        lemma_dec_enc_casm_entry_point(s, ii, x);
    }
    lemma_dec_enc_list(
        dec_fn_casm_entry_point(),
        enc_fn_casm_entry_point(),
        |x: CasmContractEntryPointView| x.wf(),
        s,
        i,
        data,
    );
}

/// The entry points of a compiled class, grouped by type, in the compiled
/// format's own order.
#[derive(Clone, Debug, PartialEq, Eq)]
pub struct CasmContractEntryPoints {
    pub external: Vec<CasmContractEntryPoint>,
    pub l1_handler: Vec<CasmContractEntryPoint>,
    pub constructor: Vec<CasmContractEntryPoint>,
}

/// The mathematical view of the grouped compiled entry points.
#[verifier::ext_equal]
pub struct CasmContractEntryPointsView {
    pub external: Seq<CasmContractEntryPointView>,
    pub l1_handler: Seq<CasmContractEntryPointView>,
    pub constructor: Seq<CasmContractEntryPointView>,
}

impl View for CasmContractEntryPoints {
    type V = CasmContractEntryPointsView;

    open spec fn view(&self) -> CasmContractEntryPointsView {
        CasmContractEntryPointsView {
            external: casm_ep_list_view(self.external@),
            l1_handler: casm_ep_list_view(self.l1_handler@),
            constructor: casm_ep_list_view(self.constructor@),
        }
    }
}

impl CasmContractEntryPointsView {
    /// Lengths fit the wire format's 64-bit counts.
    pub open spec fn wf(self) -> bool {
        &&& self.external.len() <= u64::MAX
        &&& self.l1_handler.len() <= u64::MAX
        &&& self.constructor.len() <= u64::MAX
        &&& forall|j: int| 0 <= j < self.external.len() ==> (#[trigger] self.external[j]).wf()
        &&& forall|j: int| 0 <= j < self.l1_handler.len() ==> (#[trigger] self.l1_handler[j]).wf()
        &&& forall|j: int| 0 <= j < self.constructor.len() ==> (#[trigger] self.constructor[j]).wf()
    }
}

/// The grouped compiled entry points: the three sequences in order.
pub open spec fn enc_casm_entry_points(e: CasmContractEntryPointsView) -> Seq<u8> {
    enc_casm_entry_point_list(e.external) + enc_casm_entry_point_list(e.l1_handler)
        + enc_casm_entry_point_list(e.constructor)
}

/// Reads the grouped compiled entry points.
pub open spec fn dec_casm_entry_points(s: Seq<u8>, i: int) -> Option<
    (CasmContractEntryPointsView, int),
> {
    match dec_casm_entry_point_list(s, i) {
        None => None,
        Some((external, a)) => match dec_casm_entry_point_list(s, a) {
            None => None,
            Some((l1_handler, b)) => match dec_casm_entry_point_list(s, b) {
                None => None,
                Some((constructor, c)) => Some(
                    (CasmContractEntryPointsView { external, l1_handler, constructor }, c),
                ),
            },
        },
    }
}

impl CasmContractEntryPoints {
    /// Appends the grouped compiled entry points.
    pub fn serialize_into(&self, out: &mut Vec<u8>)
        ensures
            final(out)@ == old(out)@ + enc_casm_entry_points(self@),
    {
        write_casm_entry_point_list(out, &self.external);
        write_casm_entry_point_list(out, &self.l1_handler);
        write_casm_entry_point_list(out, &self.constructor);
        assert(out@ =~= old(out)@ + enc_casm_entry_points(self@));
    }

    /// Reads grouped compiled entry points, advancing the position on
    /// success.
    pub fn deserialize_from(v: &Vec<u8>, pos: &mut usize) -> (r: Option<CasmContractEntryPoints>)
        ensures
            match dec_casm_entry_points(v@, *old(pos) as int) {
                Some((e, j)) => {
                    &&& r matches Some(out) && out@ == e
                    &&& *final(pos) == j
                },
                None => r is None,
            },
    {
        let external = match read_casm_entry_point_list(v, pos) {
            Some(x) => x,
            None => {
                return None;
            },
        };
        let l1_handler = match read_casm_entry_point_list(v, pos) {
            Some(x) => x,
            None => {
                return None;
            },
        };
        let constructor = match read_casm_entry_point_list(v, pos) {
            Some(x) => x,
            None => {
                return None;
            },
        };
        let e = CasmContractEntryPoints { external, l1_handler, constructor };
        proof {
            let got = dec_casm_entry_points(v@, *old(pos) as int)->0;
            assert(e@ =~= got.0);
        }
        Some(e)
    }
}

/// Round trip for the grouped compiled entry points.
pub proof fn lemma_dec_enc_casm_entry_points(s: Seq<u8>, i: int, e: CasmContractEntryPointsView)
    requires
        e.wf(),
        0 <= i,
        i + enc_casm_entry_points(e).len() <= s.len(),
        s.subrange(i, i + enc_casm_entry_points(e).len()) == enc_casm_entry_points(e),
    ensures
        dec_casm_entry_points(s, i) == Some((e, i + enc_casm_entry_points(e).len())),
{
    let e1 = enc_casm_entry_point_list(e.external);
    let e2 = enc_casm_entry_point_list(e.l1_handler);
    let e3 = enc_casm_entry_point_list(e.constructor);
    let total = enc_casm_entry_points(e).len() as int;
    let a = i + e1.len() as int;
    let b = a + e2.len() as int;
    lemma_sub_of_sub(s, i, total, 0, e1.len() as int);
    assert(s.subrange(i, a) =~= e1);
    lemma_dec_enc_casm_entry_point_list(s, i, e.external);
    lemma_sub_of_sub(s, i, total, e1.len() as int, (e1.len() + e2.len()) as int);
    assert(s.subrange(a, b) =~= e2);
    lemma_dec_enc_casm_entry_point_list(s, a, e.l1_handler);
    lemma_sub_of_sub(s, i, total, (e1.len() + e2.len()) as int, total);
    assert(s.subrange(b, i + total) =~= e3);
    lemma_dec_enc_casm_entry_point_list(s, b, e.constructor);
}

/// A compiled contract class: the field prime and compiler version as raw
/// blobs, the bytecode words as raw big-endian blobs, the segment length
/// tree carried as its own encoded blob, the hints per code offset, and the
/// entry points. Everything is serialized into one buffer and compressed as
/// a whole.
#[derive(Clone, Debug, PartialEq, Eq)]
pub struct CasmContractClass {
    pub prime: Vec<u8>,
    pub compiler_version: Vec<u8>,
    pub bytecode: Vec<Vec<u8>>,
    pub bytecode_segment_lengths: Option<Vec<u8>>,
    pub hints: Vec<HintEntry>,
    pub pythonic_hints: Option<Vec<HintEntry>>,
    pub entry_points_by_type: CasmContractEntryPoints,
}

/// The mathematical view of a compiled class.
#[verifier::ext_equal]
pub struct CasmContractClassView {
    pub prime: Seq<u8>,
    pub compiler_version: Seq<u8>,
    pub bytecode: Seq<Seq<u8>>,
    pub bytecode_segment_lengths: Option<Seq<u8>>,
    pub hints: Seq<HintEntryView>,
    pub pythonic_hints: Option<Seq<HintEntryView>>,
    pub entry_points_by_type: CasmContractEntryPointsView,
}

impl View for CasmContractClass {
    type V = CasmContractClassView;

    open spec fn view(&self) -> CasmContractClassView {
        CasmContractClassView {
            prime: self.prime@,
            compiler_version: self.compiler_version@,
            bytecode: bytes_list_view(self.bytecode@),
            bytecode_segment_lengths: match self.bytecode_segment_lengths {
                Some(b) => Some(b@),
                None => None,
            },
            hints: hint_list_view(self.hints@),
            pythonic_hints: match self.pythonic_hints {
                Some(l) => Some(hint_list_view(l@)),
                None => None,
            },
            entry_points_by_type: self.entry_points_by_type@,
        }
    }
}

impl CasmContractClassView {
    /// Lengths fit the wire format's 64-bit counts.
    pub open spec fn wf(self) -> bool {
        &&& self.prime.len() <= u64::MAX
        &&& self.compiler_version.len() <= u64::MAX
        &&& self.bytecode.len() <= u64::MAX
        &&& forall|j: int| 0 <= j < self.bytecode.len() ==> (#[trigger] self.bytecode[j]).len() <= u64::MAX
        &&& (self.bytecode_segment_lengths matches Some(b) ==> b.len() <= u64::MAX)
        &&& self.hints.len() <= u64::MAX
        &&& forall|j: int| 0 <= j < self.hints.len() ==> (#[trigger] self.hints[j]).wf()
        &&& (self.pythonic_hints matches Some(l) ==> l.len() <= u64::MAX && forall|j: int|
            0 <= j < l.len() ==> (#[trigger] l[j]).wf())
        &&& self.entry_points_by_type.wf()
    }
}

/// The buffer compressed for a compiled class: all its fields back to back.
pub open spec fn enc_casm_fields(c: CasmContractClassView) -> Seq<u8> {
    enc_bytes(c.prime) + enc_bytes(c.compiler_version) + enc_bytes_list(c.bytecode)
        + enc_opt_bytes(c.bytecode_segment_lengths) + enc_hint_list(c.hints) + enc_opt_hint_list(
        c.pythonic_hints,
    ) + enc_casm_entry_points(c.entry_points_by_type)
}

/// Reads the fields of a compiled class from an uncompressed buffer.
pub open spec fn dec_casm_fields(s: Seq<u8>, i: int) -> Option<(CasmContractClassView, int)> {
    match dec_bytes(s, i) {
        None => None,
        Some((prime, a)) => match dec_bytes(s, a) {
            None => None,
            Some((compiler_version, b)) => match dec_bytes_list(s, b) {
                None => None,
                Some((bytecode, c)) => match dec_opt_bytes(s, c) {
                    None => None,
                    Some((bytecode_segment_lengths, d1)) => match dec_hint_list(s, d1) {
                        None => None,
                        Some((hints, d2)) => match dec_opt_hint_list(s, d2) {
                            None => None,
                            Some((pythonic_hints, d3)) => match dec_casm_entry_points(s, d3) {
                                None => None,
                                Some((entry_points_by_type, dd)) => Some(
                                    (
                                        CasmContractClassView {
                                            prime,
                                            compiler_version,
                                            bytecode,
                                            bytecode_segment_lengths,
                                            hints,
                                            pythonic_hints,
                                            entry_points_by_type,
                                        },
                                        dd,
                                    ),
                                ),
                            },
                        },
                    },
                },
            },
        },
    }
}

/// Reads a stored compiled class: a length-prefixed compressed block whose
/// expansion holds the fields.
pub open spec fn dec_casm_contract_class(s: Seq<u8>, i: int) -> Option<
    (CasmContractClassView, int),
> {
    match dec_bytes(s, i) {
        None => None,
        Some((comp, j)) => match zstd_inflate(comp, MAX_DECOMPRESSED_SIZE as nat) {
            None => None,
            Some(inner) => match dec_casm_fields(inner, 0) {
                None => None,
                Some((c, _end)) => Some((c, j)),
            },
        },
    }
}

/// Round trip for the uncompressed fields of a compiled class.
#[verifier::rlimit(100)]
pub proof fn lemma_dec_enc_casm_fields(s: Seq<u8>, i: int, c: CasmContractClassView)
    requires
        c.wf(),
        0 <= i,
        i + enc_casm_fields(c).len() <= s.len(),
        s.subrange(i, i + enc_casm_fields(c).len()) == enc_casm_fields(c),
    ensures
        dec_casm_fields(s, i) == Some((c, i + enc_casm_fields(c).len())),
{
    let e1 = enc_bytes(c.prime);
    let e2 = enc_bytes(c.compiler_version);
    let e3 = enc_bytes_list(c.bytecode);
    let e4 = enc_opt_bytes(c.bytecode_segment_lengths);
    let e5 = enc_hint_list(c.hints);
    let e6 = enc_opt_hint_list(c.pythonic_hints);
    let e7 = enc_casm_entry_points(c.entry_points_by_type);
    let total = enc_casm_fields(c).len() as int;
    let a = i + e1.len() as int;
    let b = a + e2.len() as int;
    let cc = b + e3.len() as int;
    let d1 = cc + e4.len() as int;
    let d2 = d1 + e5.len() as int;
    let d3 = d2 + e6.len() as int;
    lemma_sub_of_sub(s, i, total, 0, e1.len() as int);
    assert(s.subrange(i, a) =~= e1);
    lemma_dec_enc_bytes(s, i, c.prime);
    lemma_sub_of_sub(s, i, total, a - i, b - i);
    assert(s.subrange(a, b) =~= e2);
    lemma_dec_enc_bytes(s, a, c.compiler_version);
    lemma_sub_of_sub(s, i, total, b - i, cc - i);
    assert(s.subrange(b, cc) =~= e3);
    lemma_dec_enc_bytes_list(s, b, c.bytecode);
    lemma_sub_of_sub(s, i, total, cc - i, d1 - i);
    assert(s.subrange(cc, d1) =~= e4);
    lemma_dec_enc_opt_bytes(s, cc, c.bytecode_segment_lengths);
    lemma_sub_of_sub(s, i, total, d1 - i, d2 - i);
    assert(s.subrange(d1, d2) =~= e5);
    lemma_dec_enc_hint_list(s, d1, c.hints);
    lemma_sub_of_sub(s, i, total, d2 - i, d3 - i);
    assert(s.subrange(d2, d3) =~= e6);
    lemma_dec_enc_opt_hint_list(s, d2, c.pythonic_hints);
    lemma_sub_of_sub(s, i, total, d3 - i, total);
    assert(s.subrange(d3, i + total) =~= e7);
    lemma_dec_enc_casm_entry_points(s, d3, c.entry_points_by_type);
}

impl CasmContractClass {
    /// Serializes this class: all fields into one buffer, compressed as a
    /// whole, stored length-prefixed.
    pub fn serialize_into(&self, out: &mut Vec<u8>) -> (r: Result<(), StorageError>)
        ensures
            match r {
                Ok(_) => exists|c: Seq<u8>|
                    #![trigger enc_bytes(c)]
                    {
                        &&& final(out)@ == old(out)@ + enc_bytes(c)
                        &&& c.len() <= u64::MAX
                        &&& enc_casm_fields(self@).len() <= MAX_DECOMPRESSED_SIZE ==> zstd_inflate(
                            c,
                            MAX_DECOMPRESSED_SIZE as nat,
                        ) == Some(enc_casm_fields(self@))
                    },
                Err(e) => *final(out) == *old(out) && e == StorageError::Compression,
            },
    {
        let mut to_compress: Vec<u8> = Vec::new();
        write_bytes(&mut to_compress, &self.prime);
        write_bytes(&mut to_compress, &self.compiler_version);
        write_bytes_list(&mut to_compress, &self.bytecode);
        write_opt_bytes(&mut to_compress, &self.bytecode_segment_lengths);
        write_hint_list(&mut to_compress, &self.hints);
        write_opt_hint_list(&mut to_compress, &self.pythonic_hints);
        self.entry_points_by_type.serialize_into(&mut to_compress);
        assert(to_compress@ =~= enc_casm_fields(self@));
        let compressed = match compress(&to_compress) {
            Some(c) => c,
            None => {
                return Err(StorageError::Compression);
            },
        };
        let clen: usize = compressed.len();
        write_bytes(out, &compressed);
        proof {
            assert(compressed@.len() == clen);
            assert(out@ =~= old(out)@ + enc_bytes(compressed@));
        }
        Ok(())
    }

    /// Reads a stored compiled class, advancing the position on success.
    pub fn deserialize_from(v: &Vec<u8>, pos: &mut usize) -> (r: Option<CasmContractClass>)
        ensures
            match dec_casm_contract_class(v@, *old(pos) as int) {
                Some((c, j)) => {
                    &&& r matches Some(out) && out@ == c
                    &&& *final(pos) == j
                },
                None => r is None,
            },
    {
        let compressed = match read_bytes(v, pos) {
            Some(c) => c,
            None => {
                return None;
            },
        };
        let data = match decompress(&compressed) {
            Some(d) => d,
            None => {
                return None;
            },
        };
        let mut ipos: usize = 0;
        let prime = match read_bytes(&data, &mut ipos) {
            Some(x) => x,
            None => {
                return None;
            },
        };
        let compiler_version = match read_bytes(&data, &mut ipos) {
            Some(x) => x,
            None => {
                return None;
            },
        };
        let bytecode = match read_bytes_list(&data, &mut ipos) {
            Some(x) => x,
            None => {
                return None;
            },
        };
        let bytecode_segment_lengths = match read_opt_bytes(&data, &mut ipos) {
            Some(x) => x,
            None => {
                return None;
            },
        };
        let hints = match read_hint_list(&data, &mut ipos) {
            Some(x) => x,
            None => {
                return None;
            },
        };
        let pythonic_hints = match read_opt_hint_list(&data, &mut ipos) {
            Some(x) => x,
            None => {
                return None;
            },
        };
        let entry_points_by_type = match CasmContractEntryPoints::deserialize_from(
            &data,
            &mut ipos,
        ) {
            Some(x) => x,
            None => {
                return None;
            },
        };
        let c = CasmContractClass {
            prime,
            compiler_version,
            bytecode,
            bytecode_segment_lengths,
            hints,
            pythonic_hints,
            entry_points_by_type,
        };
        proof {
            let got = dec_casm_contract_class(v@, *old(pos) as int)->0;
            assert(c@ =~= got.0);
        }
        Some(c)
    }
}

/// A serialized compiled class reads back as itself, for bodies within the
/// expansion bound.
#[verifier::rlimit(100)]
#[verifier::spinoff_prover]
pub proof fn lemma_casm_body_decodes(body: Seq<u8>, c: Seq<u8>, cls: CasmContractClassView)
    requires
        cls.wf(),
        body == enc_bytes(c),
        c.len() <= u64::MAX,
        zstd_inflate(c, MAX_DECOMPRESSED_SIZE as nat) == Some(enc_casm_fields(cls)),
    ensures
        dec_casm_contract_class(body, 0) == Some((cls, body.len() as int)),
{
    assert(body.subrange(0, enc_bytes(c).len() as int) =~= enc_bytes(c));
    lemma_dec_enc_bytes(body, 0, c);
    let inner = enc_casm_fields(cls);
    assert(inner.subrange(0, inner.len() as int) =~= inner);
    lemma_dec_enc_casm_fields(inner, 0, cls);
}

} // verus!
