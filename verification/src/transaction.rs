//! The transaction as the mempool logic reads it.
//!
//! A node receives transactions from the chain's core library; the mempool
//! reads only their identifier, their inputs (the outputs they spend and the
//! spending key), their outputs, the fee cap and the size of their encoding.

use vstd::prelude::*;
use crate::external::bincode_encode_hash;

verus! {

/// A 32-byte hash, such as a transaction identifier.
#[derive(Clone, Copy, Debug, PartialEq, Eq)]
pub struct Hash {
    pub bytes: [u8; 32],
}

impl Hash {
    pub fn from_bytes(bytes: [u8; 32]) -> (h: Hash)
        ensures
            h.bytes == bytes,
    {
        Hash { bytes }
    }

    /// The hash's bytes.
    pub fn as_bytes(&self) -> (r: &[u8; 32])
        ensures
            r@ == self.bytes@,
    {
        &self.bytes
    }
}

/// The key under which a hash is indexed: its bincode encoding.
pub open spec fn hash_key_spec(h: Hash) -> Seq<u8> {
    h.bytes@
}

/// The bincode encoding of a hash, which the mempool uses as its key.
pub fn hash_key(h: &Hash) -> (k: Vec<u8>)
    ensures
        k@ == hash_key_spec(*h),
        k@.len() == 32,
{
    bincode_encode_hash(&h.bytes)
}

/// Reference to the output that an input spends.
#[derive(Clone, Debug)]
pub struct TxInput {
    /// Transaction whose output is spent
    pub prev_tx: Hash,
    /// Index of that output
    pub index: u32,
    /// Public key of the spender
    pub pubkey: Vec<u8>,
}

/// An output of a transaction.
#[derive(Clone, Copy, Debug)]
pub struct TxOutput {
    pub value: u64,
    pub pubkey_hash: Hash,
}

/// A transaction.
#[derive(Clone, Debug)]
pub struct Transaction {
    pub id: Hash,
    pub inputs: Vec<TxInput>,
    pub outputs: Vec<TxOutput>,
    /// Fee cap per unit of gas
    pub max_fee_per_gas: u64,
    /// Size in bytes of the transaction's bincode encoding
    pub encoded_size: u64,
}


/// An input as a value.
pub struct TxInputView {
    pub prev_tx: Hash,
    pub index: u32,
    pub pubkey: Seq<u8>,
}

impl View for TxInput {
    type V = TxInputView;

    open spec fn view(&self) -> TxInputView {
        TxInputView { prev_tx: self.prev_tx, index: self.index, pubkey: self.pubkey@ }
    }
}

/// A transaction as a value.
pub struct TransactionView {
    pub id: Hash,
    pub inputs: Seq<TxInputView>,
    pub outputs: Seq<TxOutput>,
    pub max_fee_per_gas: u64,
    pub encoded_size: u64,
}

impl View for Transaction {
    type V = TransactionView;

    open spec fn view(&self) -> TransactionView {
        TransactionView {
            id: self.id,
            inputs: self.inputs@.map_values(|i: TxInput| i@),
            outputs: self.outputs@,
            max_fee_per_gas: self.max_fee_per_gas,
            encoded_size: self.encoded_size,
        }
    }
}

impl TxInput {
    /// A copy of the input.
    pub fn duplicate(&self) -> (c: Self)
        ensures
            c@ == self@,
    {
        TxInput { prev_tx: self.prev_tx, index: self.index, pubkey: crate::bytes::copy_bytes(self.pubkey.as_slice()) }
    }
}

impl Transaction {
    /// A copy of the transaction.
    pub fn duplicate(&self) -> (c: Self)
        ensures
            c@ == self@,
    {
        let mut inputs: Vec<TxInput> = Vec::new();
        let mut i: usize = 0;
        while i < self.inputs.len()
            invariant
                i <= self.inputs@.len(),
                inputs@.len() == i,
                forall|j: int| 0 <= j < i ==> (#[trigger] inputs@[j])@ == self.inputs@[j]@,
            decreases self.inputs@.len() - i,
        {
            inputs.push(self.inputs[i].duplicate());
            i = i + 1;
        }
        let mut outputs: Vec<TxOutput> = Vec::new();
        let mut k: usize = 0;
        while k < self.outputs.len()
            invariant
                k <= self.outputs@.len(),
                outputs@ == self.outputs@.take(k as int),
            decreases self.outputs@.len() - k,
        {
            outputs.push(self.outputs[k]);
            k = k + 1;
            proof {
                assert(outputs@ =~= self.outputs@.take(k as int));
            }
        }
        let c = Transaction {
            id: self.id,
            inputs,
            outputs,
            max_fee_per_gas: self.max_fee_per_gas,
            encoded_size: self.encoded_size,
        };
        proof {
            assert(outputs@ =~= self.outputs@);
            assert(c@.inputs =~= self@.inputs);
        }
        c
    }
}
} // verus!
