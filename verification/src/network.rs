use vstd::prelude::*;

use crate::types::{Block, PublicKey, Transaction, TransactionOutput};

verus! {

/// The messages that wallets, nodes and miners exchange.
#[derive(Clone, Debug)]
pub enum Message {
    /// Fetch all the UTXOs that belong to a public key
    FetchUTXOs(PublicKey),
    /// UTXOs that belong to a public key, marked by a boolean value
    UTXOs(Vec<(TransactionOutput, bool)>),
    /// Send a transaction to the network
    SubmitTransaction(Transaction),
    /// Broadcast a new transaction to the network
    NewTransaction(Transaction),
    /// Ask the node to prepare the optimal block template with the coinbase
    /// transaction paying the specified public key
    FetchTemplate(PublicKey),
    /// A proposed block template
    Template(Block),
    /// Ask the node to validate a block template
    ValidateTemplate(Block),
    /// The validity of a block template
    TemplateValidity(bool),
    /// Submit a mined block to a node
    SubmitTemplate(Block),
    /// Ask a node to report the nodes that it knows about
    DiscoverNodes,
    /// The answer to `DiscoverNodes`
    NodeList(Vec<String>),
    /// Ask a node to compare the highest block it knows about with the local chain
    AskDifference(u32),
    /// The answer to `AskDifference`
    Difference(i32),
    /// Ask a node for the block at a height
    FetchBlock(usize),
    /// Broadcast a new block to other nodes
    NewBlock(Block),
}

/// The eight big-endian bytes of a 64-bit length.
pub open spec fn be_bytes(n: u64) -> Seq<u8> {
    seq![
        (n / 0x0100_0000_0000_0000 % 256) as u8,
        (n / 0x0001_0000_0000_0000 % 256) as u8,
        (n / 0x0000_0100_0000_0000 % 256) as u8,
        (n / 0x0000_0001_0000_0000 % 256) as u8,
        (n / 0x0000_0000_0100_0000 % 256) as u8,
        (n / 0x0000_0000_0001_0000 % 256) as u8,
        (n / 0x0000_0000_0000_0100 % 256) as u8,
        (n % 256) as u8,
    ]
}

/// The number that the first eight bytes of `b` give, most significant first.
pub open spec fn be_value(b: Seq<u8>) -> nat {
    b[0] as nat * 0x0100_0000_0000_0000 + b[1] as nat * 0x0001_0000_0000_0000 + b[2] as nat
        * 0x0000_0100_0000_0000 + b[3] as nat * 0x0000_0001_0000_0000 + b[4] as nat
        * 0x0000_0000_0100_0000 + b[5] as nat * 0x0000_0000_0001_0000 + b[6] as nat
        * 0x0000_0000_0000_0100 + b[7] as nat
}

/// A frame on the wire: the payload's length as eight big-endian bytes, then
/// the payload.
pub open spec fn frame(payload: Seq<u8>) -> Seq<u8> {
    be_bytes(payload.len() as u64) + payload
}

/// The payload of the frame at the start of `data`, if `data` holds a whole
/// frame: eight length bytes and at least that many bytes after them.
pub open spec fn unframe(data: Seq<u8>) -> Option<Seq<u8>> {
    if data.len() >= 8 && be_value(data) <= data.len() - 8 {
        Some(data.subrange(8, 8 + be_value(data) as int))
    } else {
        None
    }
}

/// Eight big-endian bytes read back as the number they were made from.
pub proof fn lemma_be_roundtrip(n: u64)
    ensures
        be_value(be_bytes(n)) == n,
{
    let b = be_bytes(n);
    assert(b[0] as nat * 0x0100_0000_0000_0000 + b[1] as nat * 0x0001_0000_0000_0000 + b[2] as nat
        * 0x0000_0100_0000_0000 + b[3] as nat * 0x0000_0001_0000_0000 + b[4] as nat
        * 0x0000_0000_0100_0000 + b[5] as nat * 0x0000_0000_0001_0000 + b[6] as nat
        * 0x0000_0000_0000_0100 + b[7] as nat == n) by {
        assert((n / 0x0100_0000_0000_0000 % 256) * 0x0100_0000_0000_0000 + (n / 0x0001_0000_0000_0000
            % 256) * 0x0001_0000_0000_0000 + (n / 0x0000_0100_0000_0000 % 256) * 0x0000_0100_0000_0000
            + (n / 0x0000_0001_0000_0000 % 256) * 0x0000_0001_0000_0000 + (n / 0x0000_0000_0100_0000
            % 256) * 0x0000_0000_0100_0000 + (n / 0x0000_0000_0001_0000 % 256) * 0x0000_0000_0001_0000
            + (n / 0x0000_0000_0000_0100 % 256) * 0x0000_0000_0000_0100 + n % 256 == n) by (bit_vector);
    }
}

/// Reading a frame gives back the payload that was framed, whatever follows it.
pub proof fn lemma_frame_roundtrip(payload: Seq<u8>, rest: Seq<u8>)
    requires
        payload.len() <= u64::MAX,
    ensures
        unframe(frame(payload) + rest) == Some(payload),
{
    let data = frame(payload) + rest;
    lemma_be_roundtrip(payload.len() as u64);
    assert(data.take(8) =~= be_bytes(payload.len() as u64));
    assert(be_value(data) == be_value(be_bytes(payload.len() as u64)));
    assert(data.subrange(8, 8 + payload.len() as int) =~= payload);
}

impl Message {
    /// Appends the frame of an encoded message to `stream`: the payload's
    /// length as eight big-endian bytes, then the payload.
    pub fn send(payload: &[u8], stream: &mut Vec<u8>)
        ensures
            final(stream)@ == old(stream)@ + frame(payload@),
    {
        let len = payload.len() as u64;
        stream.push((len / 0x0100_0000_0000_0000 % 256) as u8);
        stream.push((len / 0x0001_0000_0000_0000 % 256) as u8);
        stream.push((len / 0x0000_0100_0000_0000 % 256) as u8);
        stream.push((len / 0x0000_0001_0000_0000 % 256) as u8);
        stream.push((len / 0x0000_0000_0100_0000 % 256) as u8);
        stream.push((len / 0x0000_0000_0001_0000 % 256) as u8);
        stream.push((len / 0x0000_0000_0000_0100 % 256) as u8);
        stream.push((len % 256) as u8);
        let ghost header = stream@;
        let n = payload.len();
        let mut i: usize = 0;
        while i < n
            invariant
                i <= n,
                n == payload@.len(),
                header.len() == old(stream)@.len() + 8,
                header == old(stream)@ + be_bytes(n as u64),
                stream@ == header + payload@.take(i as int),
            decreases n - i,
        {
            stream.push(payload[i]);
            proof {
                assert(payload@.take(i + 1) =~= payload@.take(i as int).push(payload@[i as int]));
            }
            i = i + 1;
        }
        proof {
            assert(payload@.take(n as int) =~= payload@);
            assert(old(stream)@ + be_bytes(n as u64) + payload@ =~= old(stream)@ + frame(payload@));
        }
    }

    /// The payload length that a frame's eight header bytes announce, or
    /// `None` when fewer than eight bytes are given.
    pub fn payload_length(header: &[u8]) -> (r: Option<u64>)
        ensures
            match r {
                Some(len) => header@.len() >= 8 && len == be_value(header@),
                None => header@.len() < 8,
            },
    {
        if header.len() < 8 {
            return None;
        }
        Some((header[0] as u64) * 0x0100_0000_0000_0000 + (header[1] as u64) * 0x0001_0000_0000_0000
            + (header[2] as u64) * 0x0000_0100_0000_0000 + (header[3] as u64) * 0x0000_0001_0000_0000
            + (header[4] as u64) * 0x0000_0000_0100_0000 + (header[5] as u64) * 0x0000_0000_0001_0000
            + (header[6] as u64) * 0x0000_0000_0000_0100 + (header[7] as u64))
    }

    /// Reads the frame at the start of `data`: its payload, or `None` when
    /// `data` ends before the eight length bytes or before the announced
    /// payload does.
    pub fn receive(data: &[u8]) -> (r: Option<Vec<u8>>)
        ensures
            match r {
                Some(p) => unframe(data@) == Some(p@),
                None => unframe(data@) is None,
            },
    {
        let len = match Self::payload_length(data) {
            Some(len) => len,
            None => {
                return None;
            },
        };
        if len > (data.len() - 8) as u64 {
            return None;
        }
        let end = 8 + len as usize;
        let mut out: Vec<u8> = Vec::new();
        let mut i: usize = 8;
        while i < end
            invariant
                8 <= i <= end,
                end == 8 + be_value(data@),
                end <= data@.len(),
                out@ == data@.subrange(8, i as int),
            decreases end - i,
        {
            out.push(data[i]);
            proof {
                assert(data@.subrange(8, i + 1) =~= data@.subrange(8, i as int).push(data@[i as int]));
            }
            i = i + 1;
        }
        Some(out)
    }
}

} // verus!
