//! The plain value types persisted by the storage engine.
//!
//! A field element is kept as 256 bits in two machine words; contract
//! addresses, class hashes, storage keys and nonces are field elements with
//! their role recorded in the type. Block numbers are dense integers bounded
//! well below their 64-bit width (the codec stores them in 4 bytes).

use vstd::prelude::*;

verus! {

/// A field element, kept as a 256-bit value in big-endian word order:
/// `hi` holds the 16 most significant bytes, `lo` the 16 least significant.
#[derive(Clone, Copy, Debug, PartialEq, Eq, Structural, Hash)]
pub struct Felt {
    pub hi: u128,
    pub lo: u128,
}

impl Felt {
    /// The zero element, the default for storage cells that were never written.
    pub fn zero() -> (r: Felt)
        ensures
            r == Felt::spec_zero(),
    {
        Felt { hi: 0, lo: 0 }
    }

    /// The zero element as a specification value.
    pub open spec fn spec_zero() -> Felt {
        Felt { hi: 0, lo: 0 }
    }

    /// Builds a field element from a small value, for keys and test data.
    pub fn from_u128(v: u128) -> (r: Felt)
        ensures
            r == (Felt { hi: 0, lo: v }),
    {
        Felt { hi: 0, lo: v }
    }
}

/// The address of a deployed contract.
#[derive(Clone, Copy, Debug, PartialEq, Eq, Structural, Hash)]
pub struct ContractAddress(pub Felt);

/// The hash identifying a declared contract class.
#[derive(Clone, Copy, Debug, PartialEq, Eq, Structural, Hash)]
pub struct ClassHash(pub Felt);

/// The hash of the compiled form of a contract class.
#[derive(Clone, Copy, Debug, PartialEq, Eq, Structural, Hash)]
pub struct CompiledClassHash(pub Felt);

/// The nonce of a contract, incremented once per transaction it sends.
#[derive(Clone, Copy, Debug, PartialEq, Eq, Structural, Hash)]
pub struct Nonce(pub Felt);

impl Nonce {
    /// The nonce a contract holds right after deployment.
    pub fn zero() -> (r: Nonce)
        ensures
            r == Nonce(Felt::spec_zero()),
    {
        Nonce(Felt::zero())
    }
}

/// A key into a contract's storage space.
#[derive(Clone, Copy, Debug, PartialEq, Eq, Structural, Hash)]
pub struct StorageKey(pub Felt);

/// The selector of a contract entry point.
#[derive(Clone, Copy, Debug, PartialEq, Eq, Structural, Hash)]
pub struct EntryPointSelector(pub Felt);

/// The number of a block in the chain, dense and monotonically increasing.
///
/// The codec stores block numbers in 4 bytes, so every number that reaches
/// the storage layer is below [`BlockNumber::WIDTH_BOUND`].
#[derive(Clone, Copy, Debug, PartialEq, Eq, Structural, Hash)]
pub struct BlockNumber(pub u64);

impl BlockNumber {
    /// The first value that no longer fits the 4-byte encoding.
    pub const WIDTH_BOUND: u64 = 0x1_0000_0000;

    /// True when the number fits the 4-byte on-disk encoding.
    pub open spec fn in_range(self) -> bool {
        self.0 < BlockNumber::WIDTH_BOUND
    }

    /// The next block number, or `None` at the top of the numeric range.
    pub fn next(self) -> (r: Option<BlockNumber>)
        ensures
            self.0 < u64::MAX ==> r == Some(BlockNumber((self.0 + 1) as u64)),
            self.0 == u64::MAX ==> r is None,
    {
        if self.0 < u64::MAX {
            Some(BlockNumber(self.0 + 1))
        } else {
            None
        }
    }

    /// The next block number, for callers that know the range cannot run out.
    pub fn unchecked_next(self) -> (r: BlockNumber)
        requires
            self.0 < u64::MAX,
        ensures
            r.0 == self.0 + 1,
    {
        BlockNumber(self.0 + 1)
    }
}

impl Default for BlockNumber {
    fn default() -> (r: Self)
        ensures
            r == BlockNumber(0),
    {
        BlockNumber(0)
    }
}

/// A point in time of the state: the state as it is right before the block
/// it wraps, that is, with exactly the blocks below it applied.
#[derive(Clone, Copy, Debug, PartialEq, Eq, Structural, Hash)]
pub struct StateNumber(pub BlockNumber);

impl StateNumber {
    /// The state before the given block was applied.
    pub fn right_before_block(block_number: BlockNumber) -> (r: StateNumber)
        ensures
            r == StateNumber(block_number),
    {
        StateNumber(block_number)
    }

    /// The state right after the given block, for callers that know the
    /// block number cannot be at the top of the numeric range.
    pub fn unchecked_right_after_block(block_number: BlockNumber) -> (r: StateNumber)
        requires
            block_number.0 < u64::MAX,
        ensures
            r == StateNumber(BlockNumber((block_number.0 + 1) as u64)),
    {
        StateNumber(block_number.unchecked_next())
    }

    /// True when this state does not yet include the given block.
    pub fn is_before(self, block_number: BlockNumber) -> (r: bool)
        ensures
            r == self.spec_is_before(block_number),
    {
        self.0.0 <= block_number.0
    }

    /// True when this state already includes the given block.
    pub fn is_after(self, block_number: BlockNumber) -> (r: bool)
        ensures
            r == !self.spec_is_before(block_number),
    {
        !self.is_before(block_number)
    }

    /// Specification form of [`StateNumber::is_before`].
    pub open spec fn spec_is_before(self, block_number: BlockNumber) -> bool {
        self.0.0 <= block_number.0
    }

    /// The first block number whose changes are not visible to this state.
    pub fn block_after(self) -> (r: BlockNumber)
        ensures
            r == self.0,
    {
        self.0
    }
}

/// The position of a transaction inside its block.
///
/// The codec stores offsets in 3 bytes, capping a block at about 16 million
/// transactions.
#[derive(Clone, Copy, Debug, PartialEq, Eq, Structural, Hash)]
pub struct TransactionOffsetInBlock(pub u64);

impl TransactionOffsetInBlock {
    /// The first value that no longer fits the 3-byte encoding.
    pub const WIDTH_BOUND: u64 = 0x100_0000;

    /// True when the offset fits the 3-byte on-disk encoding.
    pub open spec fn in_range(self) -> bool {
        self.0 < TransactionOffsetInBlock::WIDTH_BOUND
    }
}

/// Where a serialized body sits inside an append-only blob file.
#[derive(Clone, Copy, Debug, PartialEq, Eq, Structural, Hash)]
pub struct LocationInFile {
    /// The index of the body in the file.
    pub offset: u64,
    /// The length in bytes of the serialized body.
    pub len: u64,
}

/// A class body index entry for the legacy class format: the first block the
/// class was declared at, and where its body is stored.
#[derive(Clone, Copy, Debug, PartialEq, Eq, Structural, Hash)]
pub struct IndexedDeprecatedContractClass {
    pub block_number: BlockNumber,
    pub location_in_file: LocationInFile,
}

/// An error surfaced by the storage engine.
///
/// Absent values are not errors: a missing row reads as a default or `None`.
#[derive(Clone, Copy, Debug, PartialEq, Eq, Structural)]
pub enum StorageError {
    /// An append arrived for a block other than the one the marker owes.
    MarkerMismatch { expected: BlockNumber, found: BlockNumber },
    /// A write targeted a key that already holds a row.
    KeyAlreadyExists,
    /// Two tables disagree about whether data exists.
    DBInconsistency,
    /// The compression library refused a body.
    Compression,
}

} // verus!
