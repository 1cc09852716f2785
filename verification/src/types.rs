use vstd::prelude::*;

use crate::u256::U256;

verus! {

/// A SHA-256 digest, read as a 256-bit number.
#[derive(Clone, Copy, Debug, PartialEq, Eq, Structural)]
pub struct Hash(pub U256);

/// The all-zero digest.
pub open spec fn zero_hash() -> Hash {
    Hash(U256 { l0: 0, l1: 0, l2: 0, l3: 0 })
}

impl Hash {
    /// The all-zero digest, which the first block names as its predecessor.
    pub fn zero() -> (h: Hash)
        ensures
            h == zero_hash(),
            h.0@ == 0,
    {
        Hash(U256::zero())
    }

    /// A digest meets a difficulty target when, read as a number, it does not exceed it.
    pub fn matches_target(&self, target: U256) -> (r: bool)
        ensures
            r == (self.0@ <= target@),
    {
        self.0.le(&target)
    }

    /// The digest as a number.
    pub fn as_u256(&self) -> (r: U256)
        ensures
            r == self.0,
    {
        self.0
    }
}

/// The root of the Merkle tree over a block's transactions.
#[derive(Clone, Copy, Debug, PartialEq, Eq, Structural)]
pub struct MerkleRoot(pub Hash);

/// A compressed SEC1 secp256k1 public key.
#[derive(Clone, Copy, Debug)]
pub struct PublicKey(pub [u8; 33]);

/// A fixed-size (r, s) ECDSA signature.
#[derive(Clone, Copy, Debug)]
pub struct Signature(pub [u8; 64]);

/// A UTC instant: whole seconds since the Unix epoch and the nanoseconds
/// past that second (beyond 999_999_999 only inside a leap second).
#[derive(Clone, Copy, Debug, PartialEq, Eq, Structural)]
pub struct Timestamp {
    pub secs: i64,
    pub nanos: u32,
}

/// Nanoseconds in one second.
pub const NANOS_PER_SECOND: i128 = 1_000_000_000;

/// `n / d` rounded toward zero, for a positive `d`.
pub open spec fn div_toward_zero(n: int, d: int) -> int {
    if n >= 0 {
        n / d
    } else {
        -((-n) / d)
    }
}

impl Timestamp {
    /// The instant as nanoseconds since the Unix epoch.
    pub open spec fn total_nanos(self) -> int {
        self.secs * 1_000_000_000 + self.nanos
    }

    /// Chronological order: first by second, then by the nanoseconds within it.
    pub open spec fn not_after(self, other: Timestamp) -> bool {
        self.secs < other.secs || (self.secs == other.secs && self.nanos <= other.nanos)
    }

    /// `self` is at or before `other`.
    pub fn is_not_after(&self, other: &Timestamp) -> (r: bool)
        ensures
            r == self.not_after(*other),
    {
        self.secs < other.secs || (self.secs == other.secs && self.nanos <= other.nanos)
    }

    /// The instant in nanoseconds since the Unix epoch.
    pub fn as_nanos(&self) -> (r: i128)
        ensures
            r == self.total_nanos(),
    {
        (self.secs as i128) * NANOS_PER_SECOND + (self.nanos as i128)
    }

    /// Whole seconds from `earlier` to `self`, rounded toward zero.
    pub fn whole_seconds_since(&self, earlier: &Timestamp) -> (r: i128)
        ensures
            r == div_toward_zero(self.total_nanos() - earlier.total_nanos(), 1_000_000_000),
    {
        let diff = self.as_nanos() - earlier.as_nanos();
        if diff >= 0 {
            ((diff as u128) / (NANOS_PER_SECOND as u128)) as i128
        } else {
            let magnitude = (0 - diff) as u128;
            0 - ((magnitude / (NANOS_PER_SECOND as u128)) as i128)
        }
    }
}

/// A reference to an unspent output, with the signature that unlocks it.
#[derive(Clone, Copy, Debug)]
pub struct TransactionInput {
    pub prev_transaction_output_hash: Hash,
    pub signature: Signature,
}

/// An amount of satoshis locked to a public key. `digest` is the SHA-256
/// digest of the output's canonical encoding, fixed when the output is encoded.
#[derive(Clone, Copy, Debug)]
pub struct TransactionOutput {
    pub value: u64,
    pub unique_id: u128,
    pub pubkey: PublicKey,
    pub digest: Hash,
}

impl TransactionOutput {
    /// The digest that identifies this output.
    pub fn hash(&self) -> (h: Hash)
        ensures
            h == self.digest,
    {
        self.digest
    }
}

/// A transfer from spent outputs to new ones. `digest` is the SHA-256 digest
/// of the transaction's canonical encoding.
#[derive(Clone, Debug)]
pub struct Transaction {
    pub inputs: Vec<TransactionInput>,
    pub outputs: Vec<TransactionOutput>,
    pub digest: Hash,
}

impl Transaction {
    /// The digest that identifies this transaction.
    pub fn hash(&self) -> (h: Hash)
        ensures
            h == self.digest,
    {
        self.digest
    }
}

/// A block header. `digest` is the SHA-256 digest of the header's canonical
/// encoding, the number that proof of work compares with `target`.
#[derive(Clone, Copy, Debug)]
pub struct BlockHeader {
    pub timestamp: Timestamp,
    pub nonce: u64,
    pub prev_block_hash: Hash,
    pub merkle_root: MerkleRoot,
    pub target: U256,
    pub digest: Hash,
}

impl BlockHeader {
    /// The digest of the header.
    pub fn hash(&self) -> (h: Hash)
        ensures
            h == self.digest,
    {
        self.digest
    }
}

/// A block: a header and the transactions it commits to. `digest` is the
/// SHA-256 digest of the whole block's canonical encoding, which the next
/// block names as its predecessor.
#[derive(Clone, Debug)]
pub struct Block {
    pub header: BlockHeader,
    pub transactions: Vec<Transaction>,
    pub digest: Hash,
}

impl Block {
    /// The digest that identifies this block.
    pub fn hash(&self) -> (h: Hash)
        ensures
            h == self.digest,
    {
        self.digest
    }
}

} // verus!
