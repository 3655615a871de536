//! Blocks: immutable value objects whose self hash is computed from the
//! other fields, and the fixed genesis block.

use vstd::prelude::*;
use vstd::string::StringExecFns;
use crate::digest::{dec_str, spec_sha256_hex, sha256_hex, u64_to_string};
use crate::transaction::{
    Transaction, TransactionOutputV, TransactionV, create_transaction, spec_tx_hash,
};

verus! {

/// Raised when a block's stored hash disagrees with the hash recomputed
/// from its other fields.
#[derive(Debug)]
pub struct BlockException;

/// An immutable block; `hash` is determined by the other fields.
pub struct Block {
    pub index: usize,
    pub timestamp: u64,
    pub transactions: Vec<Transaction>,
    pub noonce: usize,
    pub previous_hash: String,
    pub hash: String,
}

pub ghost struct BlockV {
    pub index: nat,
    pub timestamp: nat,
    pub transactions: Seq<TransactionV>,
    pub noonce: nat,
    pub previous_hash: Seq<char>,
    pub hash: Seq<char>,
}

impl View for Block {
    type V = BlockV;

    open spec fn view(&self) -> BlockV {
        BlockV {
            index: self.index as nat,
            timestamp: self.timestamp as nat,
            transactions: self.transactions@.map_values(|t: Transaction| t@),
            noonce: self.noonce as nat,
            previous_hash: self.previous_hash@,
            hash: self.hash@,
        }
    }
}

/// The hashes of the transactions, concatenated in order.
pub open spec fn concat_tx_hashes(txs: Seq<TransactionV>) -> Seq<char>
    decreases txs.len(),
{
    if txs.len() == 0 {
        Seq::empty()
    } else {
        concat_tx_hashes(txs.drop_last()) + txs.last().hash
    }
}

/// The canonical string a block's hash is computed over: decimal index,
/// decimal timestamp, the concatenated transaction hashes, decimal nonce,
/// and the previous block's hash.
pub open spec fn block_hash_input(
    index: nat,
    timestamp: nat,
    txs: Seq<TransactionV>,
    noonce: nat,
    previous_hash: Seq<char>,
) -> Seq<char> {
    dec_str(index) + dec_str(timestamp) + concat_tx_hashes(txs) + dec_str(noonce) + previous_hash
}

/// A block's hash: hex-encoded SHA-256 over its canonical string.
pub open spec fn spec_block_hash(
    index: nat,
    timestamp: nat,
    txs: Seq<TransactionV>,
    noonce: nat,
    previous_hash: Seq<char>,
) -> Seq<char> {
    spec_sha256_hex(block_hash_input(index, timestamp, txs, noonce, previous_hash))
}

/// The stored hash of a block agrees with the hash recomputed from its
/// other fields.
pub open spec fn block_wf_v(b: BlockV) -> bool {
    b.hash == spec_block_hash(b.index, b.timestamp, b.transactions, b.noonce, b.previous_hash)
}

/// For every well-formed block, recomputing the hash from its fields gives
/// exactly the stored hash; a block in which any hashed field was changed is
/// well-formed only if its stored hash was recomputed to match.
pub proof fn lemma_recompute_hash_matches(b: BlockV)
    requires
        block_wf_v(b),
    ensures
        spec_block_hash(b.index, b.timestamp, b.transactions, b.noonce, b.previous_hash)
            == b.hash,
{
}

/// Computes the canonical hash of a block from its fields: 64 lowercase hex
/// characters of SHA-256 over the canonical field string.
pub fn hash_block(
    index: usize,
    timestamp: u64,
    transactions: &Vec<Transaction>,
    noonce: usize,
    previous_hash: &str,
) -> (h: String)
    ensures
        h@ == spec_block_hash(
            index as nat,
            timestamp as nat,
            transactions@.map_values(|t: Transaction| t@),
            noonce as nat,
            previous_hash@,
        ),
        h@.len() == 64,
{
    let ghost txs = transactions@.map_values(|t: Transaction| t@);
    let mut s = u64_to_string(index as u64);
    let ts_str = u64_to_string(timestamp);
    s.append(ts_str.as_str());
    let mut i: usize = 0;
    while i < transactions.len()
        invariant
            i <= txs.len(),
            txs == transactions@.map_values(|t: Transaction| t@),
            txs.len() == transactions@.len(),
            s@ == dec_str(index as nat) + dec_str(timestamp as nat)
                + concat_tx_hashes(txs.subrange(0, i as int)),
        decreases txs.len() - i,
    {
        s.append(transactions[i].hash.as_str());
        proof {
            let pre = txs.subrange(0, i + 1);
            assert(pre.drop_last() =~= txs.subrange(0, i as int));
            assert(pre.last() == txs[i as int]);
            assert(dec_str(index as nat) + dec_str(timestamp as nat)
                + concat_tx_hashes(pre.drop_last()) + pre.last().hash
                =~= dec_str(index as nat) + dec_str(timestamp as nat) + concat_tx_hashes(pre));
        }
        i = i + 1;
    }
    let noonce_str = u64_to_string(noonce as u64);
    s.append(noonce_str.as_str());
    s.append(previous_hash);
    proof {
        assert(txs.subrange(0, txs.len() as int) =~= txs);
        assert(s@ =~= block_hash_input(index as nat, timestamp as nat, txs, noonce as nat,
            previous_hash@));
    }
    sha256_hex(s.as_str())
}

impl Block {
    /// The stored hash agrees with the hash recomputed from the other fields.
    pub open spec fn wf(&self) -> bool {
        block_wf_v(self@)
    }

    /// Builds a block, computing its hash from the given fields.
    pub fn new(
        index: usize,
        timestamp: u64,
        transactions: Vec<Transaction>,
        noonce: usize,
        previous_hash: String,
    ) -> (b: Block)
        ensures
            b@.index == index as nat,
            b@.timestamp == timestamp as nat,
            b@.transactions == transactions@.map_values(|t: Transaction| t@),
            b@.noonce == noonce as nat,
            b@.previous_hash == previous_hash@,
            b@.hash.len() == 64,
            b.wf(),
    {
        let hash = hash_block(index, timestamp, &transactions, noonce, previous_hash.as_str());
        Block { index, timestamp, transactions, noonce, previous_hash, hash }
    }

    pub fn duplicate(&self) -> (b: Block)
        ensures
            b@ == self@,
    {
        let mut transactions: Vec<Transaction> = Vec::new();
        let mut i: usize = 0;
        while i < self.transactions.len()
            invariant
                i <= self.transactions@.len(),
                transactions@.len() == i,
                forall|k: int| 0 <= k < i ==> transactions@[k]@ == self.transactions@[k]@,
            decreases self.transactions@.len() - i,
        {
            transactions.push(self.transactions[i].duplicate());
            i = i + 1;
        }
        let b = Block {
            index: self.index,
            timestamp: self.timestamp,
            transactions,
            noonce: self.noonce,
            previous_hash: self.previous_hash.clone(),
            hash: self.hash.clone(),
        };
        proof {
            assert(b@.transactions =~= self@.transactions);
        }
        b
    }
}

/// Two blocks are equal when the hashes recomputed from their fields agree.
impl PartialEq for Block {
    fn eq(&self, other: &Self) -> (r: bool) {
        let lhs = hash_block(self.index, self.timestamp, &self.transactions, self.noonce,
            self.previous_hash.as_str());
        let rhs = hash_block(other.index, other.timestamp, &other.transactions, other.noonce,
            other.previous_hash.as_str());
        lhs == rhs
    }
}

impl vstd::std_specs::cmp::PartialEqSpecImpl for Block {
    open spec fn obeys_eq_spec() -> bool {
        true
    }

    open spec fn eq_spec(&self, other: &Self) -> bool {
        spec_block_hash(self@.index, self@.timestamp, self@.transactions, self@.noonce,
            self@.previous_hash)
            == spec_block_hash(other@.index, other@.timestamp, other@.transactions,
            other@.noonce, other@.previous_hash)
    }
}

pub open spec fn genesis_address() -> Seq<char> {
    "30820122300d06092a864886f70d01010105000382010f003082010a0282010100b0bb73e00ebdc83794c8b926253e6f72a45b8ef487ffe565941fcd74384884a95939fc0e1213db0dfbab83dcd3902af5b6c7391a453324b956aa5be8d58cf2d5b9e9667429ee40abe8a0d0ad831939454b61db63281f2d42665dccc0088f67291926dfdb321efd7b77ad5e571b16acc931aa31046423ba16ae5c1d3d613dcf2331041d90d0f39e0fd85f30238925d00198a765e0f6c721aa7372bc5cb648156dbaf98bfe16aab9eba12545e05253fb9aab932da75067dc432ac9228b42252c1fb4d5851a5108afa063c4b4f1d1795074e66a2c92261a3d976314134bbd3ba7ae0eb1938a936381239d6f6127b846fc42c99a9fcf36984a83a924ed0522ea24830203010001"@
}

pub open spec fn genesis_previous_hash() -> Seq<char> {
    "AverCoin is a future, and i want to be in it."@
}

pub open spec fn genesis_timestamp() -> nat {
    1725615747
}

pub open spec fn genesis_mint_amount() -> nat {
    100
}

/// The genesis coinbase transaction: one output minting the fixed amount to
/// the fixed address, no inputs.
pub open spec fn genesis_tx_v() -> TransactionV {
    TransactionV {
        inputs: Seq::empty(),
        outputs: seq![
            TransactionOutputV { address: genesis_address(), amount: genesis_mint_amount() },
        ],
        hash: spec_tx_hash(
            Seq::empty(),
            seq![
                TransactionOutputV { address: genesis_address(), amount: genesis_mint_amount() },
            ],
        ),
    }
}

/// The fixed genesis block: index 0, fixed timestamp, the genesis coinbase
/// transaction, nonce 0, and a sentinel previous-hash string.
pub open spec fn genesis_block_v() -> BlockV {
    BlockV {
        index: 0,
        timestamp: genesis_timestamp(),
        transactions: seq![genesis_tx_v()],
        noonce: 0,
        previous_hash: genesis_previous_hash(),
        hash: spec_block_hash(0, genesis_timestamp(), seq![genesis_tx_v()], 0,
            genesis_previous_hash()),
    }
}

/// Builds the fixed genesis block.
pub fn genesis_block() -> (b: Block)
    ensures
        b@ == genesis_block_v(),
        b.wf(),
        b@.hash.len() == 64,
{
    let genesis_address_str = String::from_str(
        "30820122300d06092a864886f70d01010105000382010f003082010a0282010100b0bb73e00ebdc83794c8b926253e6f72a45b8ef487ffe565941fcd74384884a95939fc0e1213db0dfbab83dcd3902af5b6c7391a453324b956aa5be8d58cf2d5b9e9667429ee40abe8a0d0ad831939454b61db63281f2d42665dccc0088f67291926dfdb321efd7b77ad5e571b16acc931aa31046423ba16ae5c1d3d613dcf2331041d90d0f39e0fd85f30238925d00198a765e0f6c721aa7372bc5cb648156dbaf98bfe16aab9eba12545e05253fb9aab932da75067dc432ac9228b42252c1fb4d5851a5108afa063c4b4f1d1795074e66a2c92261a3d976314134bbd3ba7ae0eb1938a936381239d6f6127b846fc42c99a9fcf36984a83a924ed0522ea24830203010001",
    );
    let mut addresses: Vec<String> = Vec::new();
    addresses.push(genesis_address_str);
    let mut amounts: Vec<u64> = Vec::new();
    amounts.push(100);
    let genesis_transaction = create_transaction(addresses, amounts);
    proof {
        assert(genesis_transaction@.inputs =~= genesis_tx_v().inputs);
        assert(genesis_transaction@.outputs =~= genesis_tx_v().outputs);
        assert(genesis_transaction@ == genesis_tx_v());
    }
    let mut transactions: Vec<Transaction> = Vec::new();
    transactions.push(genesis_transaction);
    let b = Block::new(
        0,
        1725615747,
        transactions,
        0,
        String::from_str("AverCoin is a future, and i want to be in it."),
    );
    proof {
        assert(b@.transactions =~= seq![genesis_tx_v()]);
    }
    b
}

/// Rebuilds a block from stored fields and checks the stored hash against
/// the recomputed hash: this is the format's built-in integrity check, and a
/// block whose stored hash disagrees is invalid.
pub fn create_from_fields(
    index: usize,
    timestamp: u64,
    transactions: Vec<Transaction>,
    noonce: usize,
    previous_hash: String,
    hash: String,
) -> (r: Result<Block, BlockException>)
    ensures
        (r is Ok) == (hash@ == spec_block_hash(
            index as nat,
            timestamp as nat,
            transactions@.map_values(|t: Transaction| t@),
            noonce as nat,
            previous_hash@,
        )),
        r is Ok ==> r->Ok_0@ == (BlockV {
            index: index as nat,
            timestamp: timestamp as nat,
            transactions: transactions@.map_values(|t: Transaction| t@),
            noonce: noonce as nat,
            previous_hash: previous_hash@,
            hash: hash@,
        }),
        r is Ok ==> r->Ok_0.wf(),
{
    let obj = Block::new(index, timestamp, transactions, noonce, previous_hash);
    if obj.hash == hash {
        Ok(obj)
    } else {
        Err(BlockException)
    }
}

} // verus!
