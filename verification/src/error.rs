use vstd::prelude::*;

verus! {

/// The ways in which a block, a transaction or a key can be refused.
#[derive(Debug, Clone, Copy, PartialEq, Eq, Structural)]
pub enum BtcLibError {
    InvalidTransaction,
    InvalidBlock,
    InvalidBlockHeader,
    InvalidTransactionInput,
    InvalidTransactionOutput,
    InvalidMerkleRoot,
    InvalidHash,
    InvalidSignature,
    InvalidPublicKey,
    InvalidPrivateKey,
}

/// Results of the library's fallible operations.
pub type Result<G> = core::result::Result<G, BtcLibError>;

impl BtcLibError {
    /// The human-readable text of each error.
    pub open spec fn text(self) -> Seq<char> {
        match self {
            BtcLibError::InvalidTransaction => "Invalid transaction"@,
            BtcLibError::InvalidBlock => "Invalid block"@,
            BtcLibError::InvalidBlockHeader => "Invalid block header"@,
            BtcLibError::InvalidTransactionInput => "Invalid transaction input"@,
            BtcLibError::InvalidTransactionOutput => "Invalid transaction output"@,
            BtcLibError::InvalidMerkleRoot => "Invalid Merkle root"@,
            BtcLibError::InvalidHash => "Invalid hash"@,
            BtcLibError::InvalidSignature => "Invalid signature"@,
            BtcLibError::InvalidPublicKey => "Invalid public key"@,
            BtcLibError::InvalidPrivateKey => "Invalid private key"@,
        }
    }

    /// The message shown for this error.
    pub fn message(&self) -> (s: &'static str)
        ensures
            s@ == self.text(),
    {
        match self {
            BtcLibError::InvalidTransaction => "Invalid transaction",
            BtcLibError::InvalidBlock => "Invalid block",
            BtcLibError::InvalidBlockHeader => "Invalid block header",
            BtcLibError::InvalidTransactionInput => "Invalid transaction input",
            BtcLibError::InvalidTransactionOutput => "Invalid transaction output",
            BtcLibError::InvalidMerkleRoot => "Invalid Merkle root",
            BtcLibError::InvalidHash => "Invalid hash",
            BtcLibError::InvalidSignature => "Invalid signature",
            BtcLibError::InvalidPublicKey => "Invalid public key",
            BtcLibError::InvalidPrivateKey => "Invalid private key",
        }
    }
}

} // verus!
