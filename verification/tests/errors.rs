use btclib::error::BtcLibError;

#[test]
fn every_error_has_its_message() {
    let cases = [
        (BtcLibError::InvalidTransaction, "Invalid transaction"),
        (BtcLibError::InvalidBlock, "Invalid block"),
        (BtcLibError::InvalidBlockHeader, "Invalid block header"),
        (BtcLibError::InvalidTransactionInput, "Invalid transaction input"),
        (BtcLibError::InvalidTransactionOutput, "Invalid transaction output"),
        (BtcLibError::InvalidMerkleRoot, "Invalid Merkle root"),
        (BtcLibError::InvalidHash, "Invalid hash"),
        (BtcLibError::InvalidSignature, "Invalid signature"),
        (BtcLibError::InvalidPublicKey, "Invalid public key"),
        (BtcLibError::InvalidPrivateKey, "Invalid private key"),
    ];
    for (e, text) in cases {
        assert_eq!(e.message(), text);
    }
}
