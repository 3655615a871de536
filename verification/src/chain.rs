//! The chain: owns the block index (hash to block, across all branches),
//! the UTXO manager (state of the accepted best branch only), and the head
//! pointer; orchestrates block admission, next-block verification, and fork
//! reorganization with rollback-on-failure.

use vstd::prelude::*;
use vstd::string::StringExecFns;
use crate::block::{
    Block, BlockV, genesis_block, genesis_block_v, genesis_tx_v, hash_block, spec_block_hash,
};
use crate::difficulty::{DifficultyConfig, check_proof_of_work, spec_update_difficulty, update_difficulty};
use crate::transaction::{Transaction, TransactionV};
use crate::utxo::{
    UTXOManager, UtxoEntryV, full_indices, lemma_spend_revert_round_trip, spec_can_spend,
    spec_spend, spend_inputs,
};

verus! {

/// A structural rejection of a candidate block, carrying the reason.
#[derive(Debug)]
pub struct ChainException(pub String);

impl ChainException {
    pub fn message(&self) -> (m: &String)
        ensures
            m == &self.0,
    {
        &self.0
    }
}

/// The candidate's previous hash matches no known block.
#[derive(Debug)]
pub struct NoParentException;

/// The candidate's hash already keys the block index.
#[derive(Debug)]
pub struct DuplicateBlockException;

/// Why a candidate block was refused.
#[derive(Debug)]
pub enum ChainError {
    Duplicate(DuplicateBlockException),
    NoParent(NoParentException),
    Invalid(ChainException),
}

/// The map from block hash to block that a block sequence encodes.
pub open spec fn blocks_map(s: Seq<BlockV>) -> Map<Seq<char>, BlockV>
    decreases s.len(),
{
    if s.len() == 0 {
        Map::empty()
    } else {
        blocks_map(s.drop_last()).insert(s.last().hash, s.last())
    }
}

pub open spec fn blocks_distinct(s: Seq<BlockV>) -> bool {
    forall|k1: int, k2: int| 0 <= k1 < k2 < s.len()
        ==> (#[trigger] s[k1]).hash != (#[trigger] s[k2]).hash
}

proof fn lemma_blocks_map_contains(s: Seq<BlockV>, h: Seq<char>)
    ensures
        blocks_map(s).contains_key(h) <==> exists|i: int| 0 <= i < s.len()
            && (#[trigger] s[i]).hash == h,
    decreases s.len(),
{
    if s.len() > 0 {
        lemma_blocks_map_contains(s.drop_last(), h);
        if blocks_map(s).contains_key(h) {
            if s.last().hash == h {
                assert(s[s.len() - 1].hash == h);
            } else {
                let i = choose|i: int| 0 <= i < s.drop_last().len()
                    && (#[trigger] s.drop_last()[i]).hash == h;
                assert(s[i].hash == h);
            }
        }
        if exists|i: int| 0 <= i < s.len() && (#[trigger] s[i]).hash == h {
            let i = choose|i: int| 0 <= i < s.len() && (#[trigger] s[i]).hash == h;
            if i < s.len() - 1 {
                assert(s.drop_last()[i].hash == h);
            }
        }
    }
}

proof fn lemma_blocks_map_index(s: Seq<BlockV>, i: int)
    requires
        blocks_distinct(s),
        0 <= i < s.len(),
    ensures
        blocks_map(s).contains_key(s[i].hash),
        blocks_map(s)[s[i].hash] == s[i],
    decreases s.len(),
{
    if i < s.len() - 1 {
        assert(blocks_distinct(s.drop_last()));
        assert(s.drop_last()[i] == s[i]);
        lemma_blocks_map_index(s.drop_last(), i);
        assert(s[i].hash != s.last().hash);
    }
}

/// A block's parent is indexed, one step below it.
pub open spec fn parent_linked(m: Map<Seq<char>, BlockV>, b: BlockV) -> bool {
    m.contains_key(b.previous_hash) && m[b.previous_hash].index + 1 == b.index
}

/// The branch from its first block (genesis, in a well-formed chain) to `b`,
/// following previous-hash links through the index.
pub open spec fn chain_path(m: Map<Seq<char>, BlockV>, b: BlockV) -> Seq<BlockV>
    decreases b.index,
{
    if b.index > 0 && parent_linked(m, b) {
        chain_path(m, m[b.previous_hash]) + seq![b]
    } else {
        seq![b]
    }
}

/// Applies a block's transactions to a UTXO map, in order.
pub open spec fn apply_txs(m: Map<Seq<char>, UtxoEntryV>, txs: Seq<TransactionV>)
    -> Option<Map<Seq<char>, UtxoEntryV>>
    decreases txs.len(),
{
    if txs.len() == 0 {
        Some(m)
    } else {
        match spec_spend(m, txs[0]) {
            Some(m1) => apply_txs(m1, txs.drop_first()),
            None => None,
        }
    }
}

/// Applies the transactions of a sequence of blocks, block by block.
pub open spec fn apply_blocks(m: Map<Seq<char>, UtxoEntryV>, bs: Seq<BlockV>)
    -> Option<Map<Seq<char>, UtxoEntryV>>
    decreases bs.len(),
{
    if bs.len() == 0 {
        Some(m)
    } else {
        match apply_txs(m, bs[0].transactions) {
            Some(m1) => apply_blocks(m1, bs.drop_first()),
            None => None,
        }
    }
}

/// The UTXO state a full reconstruction from genesis along the branch ending
/// at `head` would produce.
pub open spec fn replay(m: Map<Seq<char>, BlockV>, head: BlockV)
    -> Option<Map<Seq<char>, UtxoEntryV>> {
    apply_blocks(Map::empty(), chain_path(m, head))
}

/// One transaction passes both validation and application.
pub open spec fn can_apply(m: Map<Seq<char>, UtxoEntryV>, tx: TransactionV) -> bool {
    spec_can_spend(m, tx) is Ok && spec_spend(m, tx) is Some
}

/// Applies transactions requiring each to pass validation first, as the
/// reorg re-application does.
pub open spec fn apply_txs_checked(m: Map<Seq<char>, UtxoEntryV>, txs: Seq<TransactionV>)
    -> Option<Map<Seq<char>, UtxoEntryV>>
    decreases txs.len(),
{
    if txs.len() == 0 {
        Some(m)
    } else if can_apply(m, txs[0]) {
        apply_txs_checked(spec_spend(m, txs[0]).unwrap(), txs.drop_first())
    } else {
        None
    }
}

/// Applies blocks requiring each transaction to pass validation first.
pub open spec fn apply_blocks_checked(m: Map<Seq<char>, UtxoEntryV>, bs: Seq<BlockV>)
    -> Option<Map<Seq<char>, UtxoEntryV>>
    decreases bs.len(),
{
    if bs.len() == 0 {
        Some(m)
    } else {
        match apply_txs_checked(m, bs[0].transactions) {
            Some(m1) => apply_blocks_checked(m1, bs.drop_first()),
            None => None,
        }
    }
}

/// The common ancestor the lockstep walk from two same-height blocks meets.
pub open spec fn spec_fork(m: Map<Seq<char>, BlockV>, a: BlockV, b: BlockV) -> BlockV
    decreases a.index,
{
    if a.hash == b.hash {
        a
    } else if a.index > 0 && a.index == b.index && parent_linked(m, a) && parent_linked(m, b) {
        spec_fork(m, m[a.previous_hash], m[b.previous_hash])
    } else {
        a
    }
}

/// Whether a reorg to `cand` (one step past `head`) succeeds: every
/// transaction of the new branch beyond the fork point must validate and
/// apply, in order, starting from the replayed state at the fork point.
pub open spec fn spec_reorg_ok(m: Map<Seq<char>, BlockV>, head: BlockV, cand: BlockV) -> bool {
    let fork = spec_fork(m, head, m[cand.previous_hash]);
    let fork_state = apply_blocks(Map::empty(), chain_path(m, fork)).unwrap();
    apply_blocks_checked(
        fork_state,
        chain_path(m, cand).skip(chain_path(m, fork).len() as int),
    ) is Some
}

pub proof fn lemma_apply_txs_split(
    m: Map<Seq<char>, UtxoEntryV>,
    txs: Seq<TransactionV>,
    k: int,
)
    requires
        0 <= k <= txs.len(),
    ensures
        apply_txs(m, txs) == match apply_txs(m, txs.take(k)) {
            Some(m1) => apply_txs(m1, txs.skip(k)),
            None => None::<Map<Seq<char>, UtxoEntryV>>,
        },
    decreases k,
{
    if k == 0 {
        assert(txs.take(0).len() == 0);
        assert(txs.skip(0) =~= txs);
    } else {
        assert(txs.take(k)[0] == txs[0]);
        match spec_spend(m, txs[0]) {
            Some(m1) => {
                assert(txs.take(k).drop_first() =~= txs.drop_first().take(k - 1));
                assert(txs.skip(k) =~= txs.drop_first().skip(k - 1));
                lemma_apply_txs_split(m1, txs.drop_first(), k - 1);
            },
            None => {},
        }
    }
}

pub proof fn lemma_apply_txs_checked_split(
    m: Map<Seq<char>, UtxoEntryV>,
    txs: Seq<TransactionV>,
    k: int,
)
    requires
        0 <= k <= txs.len(),
    ensures
        apply_txs_checked(m, txs) == match apply_txs_checked(m, txs.take(k)) {
            Some(m1) => apply_txs_checked(m1, txs.skip(k)),
            None => None::<Map<Seq<char>, UtxoEntryV>>,
        },
    decreases k,
{
    if k == 0 {
        assert(txs.take(0).len() == 0);
        assert(txs.skip(0) =~= txs);
    } else {
        assert(txs.take(k)[0] == txs[0]);
        if can_apply(m, txs[0]) {
            let m1 = spec_spend(m, txs[0]).unwrap();
            assert(txs.take(k).drop_first() =~= txs.drop_first().take(k - 1));
            assert(txs.skip(k) =~= txs.drop_first().skip(k - 1));
            lemma_apply_txs_checked_split(m1, txs.drop_first(), k - 1);
        }
    }
}

pub proof fn lemma_apply_blocks_split(
    m: Map<Seq<char>, UtxoEntryV>,
    bs: Seq<BlockV>,
    k: int,
)
    requires
        0 <= k <= bs.len(),
    ensures
        apply_blocks(m, bs) == match apply_blocks(m, bs.take(k)) {
            Some(m1) => apply_blocks(m1, bs.skip(k)),
            None => None::<Map<Seq<char>, UtxoEntryV>>,
        },
    decreases k,
{
    if k == 0 {
        assert(bs.take(0).len() == 0);
        assert(bs.skip(0) =~= bs);
    } else {
        assert(bs.take(k)[0] == bs[0]);
        match apply_txs(m, bs[0].transactions) {
            Some(m1) => {
                assert(bs.take(k).drop_first() =~= bs.drop_first().take(k - 1));
                assert(bs.skip(k) =~= bs.drop_first().skip(k - 1));
                lemma_apply_blocks_split(m1, bs.drop_first(), k - 1);
            },
            None => {},
        }
    }
}

pub proof fn lemma_apply_blocks_checked_split(
    m: Map<Seq<char>, UtxoEntryV>,
    bs: Seq<BlockV>,
    k: int,
)
    requires
        0 <= k <= bs.len(),
    ensures
        apply_blocks_checked(m, bs) == match apply_blocks_checked(m, bs.take(k)) {
            Some(m1) => apply_blocks_checked(m1, bs.skip(k)),
            None => None::<Map<Seq<char>, UtxoEntryV>>,
        },
    decreases k,
{
    if k == 0 {
        assert(bs.take(0).len() == 0);
        assert(bs.skip(0) =~= bs);
    } else {
        assert(bs.take(k)[0] == bs[0]);
        match apply_txs_checked(m, bs[0].transactions) {
            Some(m1) => {
                assert(bs.take(k).drop_first() =~= bs.drop_first().take(k - 1));
                assert(bs.skip(k) =~= bs.drop_first().skip(k - 1));
                lemma_apply_blocks_checked_split(m1, bs.drop_first(), k - 1);
            },
            None => {},
        }
    }
}

/// A checked application agrees with the unchecked one where it succeeds.
pub proof fn lemma_apply_txs_checked_implies_plain(
    m: Map<Seq<char>, UtxoEntryV>,
    txs: Seq<TransactionV>,
)
    requires
        apply_txs_checked(m, txs) is Some,
    ensures
        apply_txs(m, txs) == apply_txs_checked(m, txs),
    decreases txs.len(),
{
    if txs.len() > 0 {
        lemma_apply_txs_checked_implies_plain(spec_spend(m, txs[0]).unwrap(), txs.drop_first());
    }
}

pub proof fn lemma_apply_blocks_checked_implies_plain(
    m: Map<Seq<char>, UtxoEntryV>,
    bs: Seq<BlockV>,
)
    requires
        apply_blocks_checked(m, bs) is Some,
    ensures
        apply_blocks(m, bs) == apply_blocks_checked(m, bs),
    decreases bs.len(),
{
    if bs.len() > 0 {
        lemma_apply_txs_checked_implies_plain(m, bs[0].transactions);
        lemma_apply_blocks_checked_implies_plain(apply_txs_checked(m, bs[0].transactions).unwrap(),
            bs.drop_first());
    }
}

/// The structural part of chain well-formedness over the block map: every
/// indexed block sits under its own hash, only the fixed genesis block has
/// index 0, genesis is indexed, and every other block's parent is indexed one
/// step below it.
pub open spec fn index_wf(m: Map<Seq<char>, BlockV>) -> bool {
    &&& forall|h: Seq<char>| #[trigger] m.contains_key(h) ==> m[h].hash == h
    &&& m.contains_key(genesis_block_v().hash) && m[genesis_block_v().hash] == genesis_block_v()
    &&& forall|h: Seq<char>| #[trigger] m.contains_key(h) && m[h].index == 0
        ==> m[h] == genesis_block_v()
    &&& forall|h: Seq<char>| #[trigger] m.contains_key(h) && m[h].index > 0
        ==> parent_linked(m, m[h])
}

/// Inserting a block under a fresh key leaves the branch of every block
/// already indexed unchanged.
pub proof fn lemma_path_insert(
    m: Map<Seq<char>, BlockV>,
    nb: BlockV,
    b: BlockV,
)
    requires
        index_wf(m),
        !m.contains_key(nb.hash),
        m.contains_key(b.hash),
        m[b.hash] == b,
    ensures
        chain_path(m.insert(nb.hash, nb), b) == chain_path(m, b),
    decreases b.index,
{
    if b.index > 0 {
        assert(parent_linked(m, b));
        assert(b.previous_hash != nb.hash);
        let p = m[b.previous_hash];
        lemma_path_insert(m, nb, p);
    }
}

} // verus!

// The chain itself: block index, UTXO manager, head pointer, configuration.

verus! {

/// The chain: the block index holds all known blocks across all branches;
/// the UTXO manager reflects exactly the transactions on the path from
/// genesis to `head`, each applied once.
pub struct Chain {
    blocks: Vec<Block>,
    utxo: UTXOManager,
    head: Block,
    config: DifficultyConfig,
}

/// All chain-rule checks of a candidate successor against a specific parent:
/// index linkage, previous-hash linkage, hash integrity recomputed from the
/// parent's fields, and — off retarget boundaries — the difficulty check
/// (which compares the retarget-held difficulty against the same measure it
/// was held at, a structural placeholder).
pub open spec fn spec_verify_next_block(
    prev: BlockV,
    next: BlockV,
    blocks: Seq<BlockV>,
    cfg: DifficultyConfig,
) -> bool {
    &&& next.index == prev.index + 1
    &&& next.previous_hash == prev.hash
    &&& next.hash == spec_block_hash(
        (prev.index + 1) as nat,
        next.timestamp,
        next.transactions,
        next.noonce,
        prev.hash,
    )
    &&& (next.index % (cfg.changing_diff_time as nat) != 0
        ==> spec_update_difficulty(next, blocks, cfg) == next.previous_hash.len())
}

/// The reason `verify_next_block` reports: the first violated rule's
/// message, or "Verified" when every rule holds.
pub open spec fn spec_verify_message(
    prev: BlockV,
    next: BlockV,
    blocks: Seq<BlockV>,
    cfg: DifficultyConfig,
) -> Seq<char> {
    if next.index != prev.index + 1 {
        "Invalid index."@
    } else if next.previous_hash != prev.hash {
        "Invalid previous hash."@
    } else if next.hash != spec_block_hash(
        (prev.index + 1) as nat,
        next.timestamp,
        next.transactions,
        next.noonce,
        prev.hash,
    ) {
        "Invalid block hash."@
    } else if next.index % (cfg.changing_diff_time as nat) != 0
        && spec_update_difficulty(next, blocks, cfg) != next.previous_hash.len() {
        "Invalid proof of work."@
    } else {
        "Verified"@
    }
}

/// Validates a candidate successor block against a specific parent and the
/// known block set; returns the verdict and a distinguishable reason.
pub fn verify_next_block(
    previous_block: &Block,
    next_block: &Block,
    previous_blocks: &Vec<Block>,
    config: &DifficultyConfig,
) -> (r: (bool, String))
    requires
        config.wf(),
    ensures
        r.0 == spec_verify_next_block(
            previous_block@,
            next_block@,
            previous_blocks@.map_values(|b: Block| b@),
            *config,
        ),
        r.1@ == spec_verify_message(
            previous_block@,
            next_block@,
            previous_blocks@.map_values(|b: Block| b@),
            *config,
        ),
{
    if previous_block.index == usize::MAX || next_block.index != previous_block.index + 1 {
        return (false, String::from_str("Invalid index."));
    }
    if next_block.previous_hash != previous_block.hash {
        return (false, String::from_str("Invalid previous hash."));
    }
    let next_hash = hash_block(
        previous_block.index + 1,
        next_block.timestamp,
        &next_block.transactions,
        next_block.noonce,
        previous_block.hash.as_str(),
    );
    if next_hash != next_block.hash {
        return (false, String::from_str("Invalid block hash."));
    }
    if next_block.index % config.changing_diff_time != 0 {
        let previous_diff = check_proof_of_work(next_block.previous_hash.as_str());
        let new_diff = update_difficulty(next_block, previous_blocks, config);
        if new_diff != previous_diff as i128 {
            return (false, String::from_str("Invalid proof of work."));
        }
    }
    (true, String::from_str("Verified"))
}

impl Chain {
    pub closed spec fn blocks_seq(&self) -> Seq<BlockV> {
        self.blocks@.map_values(|b: Block| b@)
    }

    /// The block index: every known block, keyed by its hash.
    pub closed spec fn block_map(&self) -> Map<Seq<char>, BlockV> {
        blocks_map(self.blocks_seq())
    }

    /// The tip of the accepted best branch.
    pub closed spec fn spec_head(&self) -> BlockV {
        self.head@
    }

    /// The UTXO state of the accepted best branch.
    pub closed spec fn utxo_map(&self) -> Map<Seq<char>, UtxoEntryV> {
        self.utxo@
    }

    pub closed spec fn spec_config(&self) -> DifficultyConfig {
        self.config
    }

    /// The chain invariant: the index is structurally sound (`index_wf`),
    /// the head is indexed, and the UTXO set equals a full replay of the
    /// branch from genesis to the head.
    pub closed spec fn wf(&self) -> bool {
        &&& self.config.wf()
        &&& self.utxo.wf()
        &&& blocks_distinct(self.blocks_seq())
        &&& index_wf(self.block_map())
        &&& self.block_map().contains_key(self.head@.hash)
        &&& self.block_map()[self.head@.hash] == self.head@
        &&& replay(self.block_map(), self.head@) == Some(self.utxo@)
    }

    /// The UTXO set of a well-formed chain is exactly what a full
    /// reconstruction from genesis along the best branch produces: `replay`
    /// applies, into an empty ledger, every transaction of every block on
    /// the genesis-to-head path, in block order and in-block order. Since
    /// every constructor and mutator of `Chain` ensures `wf`, this holds in
    /// particular after a reorganization adopts a new head.
    pub proof fn lemma_utxo_is_replay(&self)
        requires
            self.wf(),
        ensures
            replay(self.block_map(), self.spec_head()) == Some(self.utxo_map()),
    {
    }

    fn find_block(&self, hash: &String) -> (r: Option<usize>)
        requires
            blocks_distinct(self.blocks_seq()),
        ensures
            match r {
                Some(i) => i < self.blocks@.len() && self.blocks@[i as int]@.hash == hash@
                    && self.block_map().contains_key(hash@)
                    && self.block_map()[hash@] == self.blocks@[i as int]@,
                None => !self.block_map().contains_key(hash@),
            },
    {
        let mut i: usize = 0;
        while i < self.blocks.len()
            invariant
                i <= self.blocks@.len(),
                blocks_distinct(self.blocks_seq()),
                forall|k: int| 0 <= k < i ==> (#[trigger] self.blocks@[k])@.hash != hash@,
            decreases self.blocks@.len() - i,
        {
            if self.blocks[i].hash == *hash {
                proof {
                    lemma_blocks_map_index(self.blocks_seq(), i as int);
                }
                return Some(i);
            }
            i = i + 1;
        }
        proof {
            lemma_blocks_map_contains(self.blocks_seq(), hash@);
        }
        None
    }

    /// Initializes a chain with the hard-coded genesis block as sole index
    /// entry and head, its coinbase transaction applied into a fresh UTXO
    /// manager.
    pub fn new(config: DifficultyConfig) -> (c: Chain)
        requires
            config.wf(),
        ensures
            c.wf(),
            c.spec_head() == genesis_block_v(),
            c.spec_config() == config,
            c.block_map() == Map::<Seq<char>, BlockV>::empty().insert(genesis_block_v().hash,
                genesis_block_v()),
            Some(c.utxo_map()) == apply_txs(Map::<Seq<char>, UtxoEntryV>::empty(),
                genesis_block_v().transactions),
    {
        let head = genesis_block();
        let mut blocks: Vec<Block> = Vec::new();
        blocks.push(head.duplicate());
        let mut utxo = UTXOManager::new();
        let ghost gtxs = genesis_block_v().transactions;
        let mut i: usize = 0;
        while i < head.transactions.len()
            invariant
                i <= gtxs.len(),
                head@ == genesis_block_v(),
                gtxs == genesis_block_v().transactions,
                gtxs.len() == head.transactions@.len(),
                utxo.wf(),
                apply_txs(Map::<Seq<char>, UtxoEntryV>::empty(), gtxs.take(i as int))
                    == Some(utxo@),
            decreases gtxs.len() - i,
        {
            let ghost mk = utxo@;
            proof {
                lemma_apply_txs_split(Map::empty(), gtxs, i as int);
                assert(gtxs =~= seq![crate::block::genesis_tx_v()]);
                assert(gtxs.len() == 1);
                assert(i == 0);
                assert(gtxs[i as int] == crate::block::genesis_tx_v());
                assert(gtxs[i as int].inputs.len() == 0);
                assert(crate::utxo::spend_inputs(mk, gtxs[i as int].inputs) == Some(mk));
                assert(gtxs.take(i as int).len() == i);
            }
            let r = utxo.spend(&head.transactions[i]);
            proof {
                if mk.contains_key(gtxs[i as int].hash) {
                    assert(spec_spend(mk, gtxs[i as int]) is None);
                } else {
                    assert(spec_spend(mk, gtxs[i as int]) is Some);
                }
                assert(gtxs.take(0).len() == 0);
                assert(apply_txs(Map::<Seq<char>, UtxoEntryV>::empty(), gtxs.take(0))
                    == Some(Map::<Seq<char>, UtxoEntryV>::empty()));
                assert(mk == Map::<Seq<char>, UtxoEntryV>::empty());
                assert(!mk.contains_key(gtxs[i as int].hash));
                assert(r is Ok);
                lemma_apply_txs_split(Map::empty(), gtxs.take(i + 1), i as int);
                assert(gtxs.take(i + 1).take(i as int) =~= gtxs.take(i as int));
                let tail = gtxs.take(i + 1).skip(i as int);
                assert(tail.len() == 1);
                assert(tail[0] == gtxs[i as int]);
                assert(tail.drop_first().len() == 0);
                assert(apply_txs(utxo@, tail.drop_first()) == Some(utxo@));
                assert(apply_txs(mk, tail) == Some(utxo@));
            }
            i = i + 1;
        }
        let c = Chain { blocks, utxo, head, config };
        proof {
            assert(gtxs.take(gtxs.len() as int) =~= gtxs);
            let s = c.blocks_seq();
            assert(s.len() == 1);
            assert(s[0] == genesis_block_v());
            assert(s.last() == genesis_block_v());
            assert(s.drop_last().len() == 0);
            assert(blocks_map(s.drop_last()) =~= Map::<Seq<char>, BlockV>::empty());
            assert(c.block_map() =~= Map::<Seq<char>, BlockV>::empty().insert(
                genesis_block_v().hash, genesis_block_v()));
            assert(blocks_distinct(s));
            assert forall|h: Seq<char>| #[trigger] c.block_map().contains_key(h) implies
                c.block_map()[h].hash == h && (c.block_map()[h].index == 0
                    ==> c.block_map()[h] == genesis_block_v()) by {
                assert(h == genesis_block_v().hash);
            }
            let p = chain_path(c.block_map(), genesis_block_v());
            assert(p =~= seq![genesis_block_v()]);
            assert(p.len() == 1);
            assert(p[0] == genesis_block_v());
            assert(p.drop_first().len() == 0);
            assert(apply_txs(Map::<Seq<char>, UtxoEntryV>::empty(),
                genesis_block_v().transactions) == Some(c.utxo@));
            assert(apply_blocks(c.utxo@, p.drop_first()) == Some(c.utxo@));
            assert(apply_blocks(Map::<Seq<char>, UtxoEntryV>::empty(), p) == Some(c.utxo@));
        }
        c
    }

    /// The tip of the accepted best branch, for mining the next block's
    /// previous hash and index.
    pub fn head(&self) -> (b: &Block)
        ensures
            b@ == self.spec_head(),
    {
        &self.head
    }

    /// The retargeting parameters this chain was built with.
    pub fn config(&self) -> (c: &DifficultyConfig)
        ensures
            c == &self.spec_config(),
    {
        &self.config
    }

    /// Read access to the UTXO set of the best branch.
    pub fn utxo(&self) -> (u: &UTXOManager)
        requires
            self.wf(),
        ensures
            u@ == self.utxo_map(),
            u.wf(),
    {
        &self.utxo
    }

    /// The block stored under the given hash, if any.
    pub fn get_block(&self, hash: &String) -> (r: Option<&Block>)
        requires
            self.wf(),
        ensures
            match r {
                Some(b) => self.block_map().contains_key(hash@)
                    && self.block_map()[hash@] == b@,
                None => !self.block_map().contains_key(hash@),
            },
    {
        match self.find_block(hash) {
            Some(i) => Some(&self.blocks[i]),
            None => None,
        }
    }

    /// The parent of a block: the indexed block its previous hash names.
    pub fn get_previous_block(&self, current_block: &Block) -> (r: Option<&Block>)
        requires
            self.wf(),
        ensures
            match r {
                Some(b) => self.block_map().contains_key(current_block@.previous_hash)
                    && self.block_map()[current_block@.previous_hash] == b@,
                None => !self.block_map().contains_key(current_block@.previous_hash),
            },
    {
        self.get_block(&current_block.previous_hash)
    }

    /// Linear scan over all indexed blocks, all branches, for the first
    /// transaction with the given hash; absence yields `None`.
    pub fn get_transaction(&self, transaction_hash: &str) -> (r: Option<Transaction>)
        requires
            self.wf(),
        ensures
            match r {
                Some(t) => t@.hash == transaction_hash@ && exists|i: int, j: int|
                    0 <= i < self.blocks_seq().len()
                    && 0 <= j < self.blocks_seq()[i].transactions.len()
                    && #[trigger] self.blocks_seq()[i].transactions[j] == t@,
                None => forall|i: int, j: int| 0 <= i < self.blocks_seq().len()
                    && 0 <= j < self.blocks_seq()[i].transactions.len()
                    ==> (#[trigger] self.blocks_seq()[i].transactions[j]).hash
                        != transaction_hash@,
            },
    {
        let wanted: String = transaction_hash.to_owned();
        let mut i: usize = 0;
        while i < self.blocks.len()
            invariant
                i <= self.blocks@.len(),
                wanted@ == transaction_hash@,
                forall|i2: int, j2: int| 0 <= i2 < i
                    && 0 <= j2 < self.blocks_seq()[i2].transactions.len()
                    ==> (#[trigger] self.blocks_seq()[i2].transactions[j2]).hash
                        != transaction_hash@,
            decreases self.blocks@.len() - i,
        {
            let block = &self.blocks[i];
            let mut j: usize = 0;
            while j < block.transactions.len()
                invariant
                    j <= block.transactions@.len(),
                    wanted@ == transaction_hash@,
                    block@ == self.blocks_seq()[i as int],
                    i < self.blocks@.len(),
                    forall|j2: int| 0 <= j2 < j
                        ==> (#[trigger] block@.transactions[j2]).hash != transaction_hash@,
                decreases block.transactions@.len() - j,
            {
                if block.transactions[j].hash == wanted {
                    let t = block.transactions[j].duplicate();
                    proof {
                        assert(self.blocks_seq()[i as int].transactions[j as int] == t@);
                    }
                    return Some(t);
                }
                j = j + 1;
            }
            i = i + 1;
        }
        None
    }
}

} // verus!

// Reorg building blocks: unapply an applied transaction prefix exactly, and
// re-apply a block's transactions when their application is known to succeed.

verus! {

/// Reverts the first `upto` transactions of a block, last first, restoring
/// the ledger to the state `base` they were applied from.
fn revert_txs_to(
    utxo: &mut UTXOManager,
    txs: &Vec<Transaction>,
    upto: usize,
    Ghost(base): Ghost<Map<Seq<char>, UtxoEntryV>>,
)
    requires
        old(utxo).wf(),
        upto <= txs@.len(),
        apply_txs(base, txs@.map_values(|t: Transaction| t@).take(upto as int))
            == Some(old(utxo)@),
    ensures
        final(utxo).wf(),
        final(utxo)@ == base,
{
    let ghost txsv = txs@.map_values(|t: Transaction| t@);
    let mut j: usize = upto;
    while j > 0
        invariant
            utxo.wf(),
            j <= txs@.len(),
            txsv == txs@.map_values(|t: Transaction| t@),
            apply_txs(base, txsv.take(j as int)) == Some(utxo@),
        decreases j,
    {
        j = j - 1;
        proof {
            lemma_apply_txs_split(base, txsv.take(j + 1), j as int);
            assert(txsv.take(j + 1).take(j as int) =~= txsv.take(j as int));
            let tail = txsv.take(j + 1).skip(j as int);
            assert(tail.len() == 1);
            assert(tail[0] == txsv[j as int]);
            assert(tail.drop_first().len() == 0);
            let mj = apply_txs(base, txsv.take(j as int)).unwrap();
            assert(spec_spend(mj, txsv[j as int]) is Some);
            assert(apply_txs(spec_spend(mj, txsv[j as int]).unwrap(), tail.drop_first())
                == spec_spend(mj, txsv[j as int]));
            assert(spec_spend(mj, txsv[j as int]) == Some(utxo@));
            lemma_spend_revert_round_trip(mj, txsv[j as int]);
        }
        let rr = utxo.revert(&txs[j]);
        proof {
            assert(rr is Ok);
        }
    }
    proof {
        assert(txsv.take(0).len() == 0);
        assert(apply_txs(base, txsv.take(0)) == Some(base));
    }
}

/// Applies all transactions of a block, in order; their sequential
/// application is known to succeed and to yield `target`.
fn apply_txs_all(
    utxo: &mut UTXOManager,
    txs: &Vec<Transaction>,
    Ghost(target): Ghost<Map<Seq<char>, UtxoEntryV>>,
)
    requires
        old(utxo).wf(),
        apply_txs(old(utxo)@, txs@.map_values(|t: Transaction| t@)) == Some(target),
    ensures
        final(utxo).wf(),
        final(utxo)@ == target,
{
    let ghost txsv = txs@.map_values(|t: Transaction| t@);
    let ghost base = utxo@;
    let mut j: usize = 0;
    proof {
        assert(txsv.take(0).len() == 0);
    }
    while j < txs.len()
        invariant
            utxo.wf(),
            j <= txs@.len(),
            txsv == txs@.map_values(|t: Transaction| t@),
            apply_txs(base, txsv) == Some(target),
            apply_txs(base, txsv.take(j as int)) == Some(utxo@),
        decreases txs@.len() - j,
    {
        let ghost mj = utxo@;
        proof {
            lemma_apply_txs_split(base, txsv, j as int);
            assert(txsv.skip(j as int)[0] == txsv[j as int]);
            assert(spec_spend(mj, txsv[j as int]) is Some);
        }
        let rr = utxo.spend(&txs[j]);
        proof {
            assert(rr is Ok);
            assert(Some(utxo@) == spec_spend(mj, txsv[j as int]));
            lemma_apply_txs_split(base, txsv.take(j + 1), j as int);
            assert(txsv.take(j + 1).take(j as int) =~= txsv.take(j as int));
            let tail = txsv.take(j + 1).skip(j as int);
            assert(tail.len() == 1);
            assert(tail[0] == txsv[j as int]);
            assert(tail.drop_first().len() == 0);
            assert(apply_txs(utxo@, tail.drop_first()) == Some(utxo@));
            assert(apply_txs(mj, tail) == Some(utxo@));
        }
        j = j + 1;
    }
    proof {
        assert(txsv.take(txs@.len() as int) =~= txsv);
    }
}

} // verus!

// The reorg procedure and block admission.

verus! {

impl Chain {
    /// Switches the best branch to `next_block`, one index past the current
    /// head: walks backward in lockstep from the head and from the
    /// candidate's parent, reverting the old branch block by block, until the
    /// fork point; then re-applies the new branch's transactions in order,
    /// validating each. If any transaction fails, everything re-applied is
    /// rolled back and the old branch is re-applied, restoring the pre-reorg
    /// UTXO state exactly, and the switch is reported failed.
    fn update_utxo_and_head(&mut self, next_block: Block) -> (r: Result<(), ChainException>)
        requires
            old(self).wf(),
            old(self).block_map().contains_key(next_block@.hash),
            old(self).block_map()[next_block@.hash] == next_block@,
            next_block@.index > old(self).spec_head().index,
        ensures
            final(self).wf(),
            final(self).block_map() == old(self).block_map(),
            final(self).spec_config() == old(self).spec_config(),
            next_block@.index == old(self).spec_head().index + 1 ==> ((r is Ok)
                == spec_reorg_ok(old(self).block_map(), old(self).spec_head(), next_block@)),
            next_block@.index != old(self).spec_head().index + 1 ==> (r matches Err(e)
                && e.0@ == "Block added to block chain index is invalid"@),
            next_block@.index == old(self).spec_head().index + 1 && r is Err
                ==> (r matches Err(e) && e.0@ == "Invalid transaction found."@),
            r is Ok ==> final(self).spec_head() == next_block@,
            r is Err ==> final(self).spec_head() == old(self).spec_head()
                && final(self).utxo_map() == old(self).utxo_map(),
    {
        if self.head.index == usize::MAX || next_block.index != self.head.index + 1 {
            return Err(ChainException(String::from_str(
                "Block added to block chain index is invalid",
            )));
        }
        let ghost m = old(self).block_map();
        let ghost cand = next_block@;
        let ghost head0 = old(self).spec_head();

        let mut old_chain: Vec<Block> = Vec::new();
        let mut new_chain: Vec<Block> = Vec::new();
        new_chain.push(next_block.duplicate());

        let mut old_parent: Block = self.head.duplicate();
        proof {
            assert(cand.index > 0);
            assert(parent_linked(m, cand));
        }
        // The candidate is indexed and linked, so its parent is indexed.
        let new_parent_at = match self.find_block(&next_block.previous_hash) {
            Some(i) => i,
            None => {
                proof {
                    assert(false);
                }
                0
            },
        };
        let mut new_parent: Block = self.blocks[new_parent_at].duplicate();

        let ghost mut old_sfx: Seq<BlockV> = Seq::empty();
        let ghost mut new_sfx: Seq<BlockV> = seq![cand];
        proof {
            assert(chain_path(m, head0) =~= chain_path(m, old_parent@) + old_sfx);
            assert(chain_path(m, cand) == chain_path(m, new_parent@) + seq![cand]);
            assert(new_sfx[new_sfx.len() - 1 - 0] == cand);
        }

        while old_parent.hash != new_parent.hash
            invariant
                self.utxo.wf(),
                self.blocks == old(self).blocks,
                self.head == old(self).head,
                self.config == old(self).config,
                old(self).wf(),
                m == old(self).block_map(),
                cand == next_block@,
                head0 == old(self).spec_head(),
                m.contains_key(old_parent@.hash),
                m[old_parent@.hash] == old_parent@,
                m.contains_key(new_parent@.hash),
                m[new_parent@.hash] == new_parent@,
                old_parent@.index == new_parent@.index,
                apply_blocks(Map::<Seq<char>, UtxoEntryV>::empty(), chain_path(m, old_parent@))
                    == Some(self.utxo@),
                chain_path(m, head0) == chain_path(m, old_parent@) + old_sfx,
                chain_path(m, cand) == chain_path(m, new_parent@) + new_sfx,
                old_sfx.len() == old_chain@.len(),
                forall|k: int| 0 <= k < old_sfx.len()
                    ==> (#[trigger] old_sfx[k]) == old_chain@[old_sfx.len() - 1 - k]@,
                new_sfx.len() == new_chain@.len(),
                new_sfx.len() >= 1,
                forall|k: int| 0 <= k < new_sfx.len()
                    ==> (#[trigger] new_sfx[k]) == new_chain@[new_sfx.len() - 1 - k]@,
                spec_fork(m, head0, m[cand.previous_hash])
                    == spec_fork(m, old_parent@, new_parent@),
            decreases old_parent@.index,
        {
            proof {
                assert(old_parent@.hash != new_parent@.hash);
                if old_parent@.index == 0 {
                    assert(m[old_parent@.hash].index == 0);
                    assert(old_parent@ == genesis_block_v());
                    assert(new_parent@ == genesis_block_v());
                    assert(false);
                }
                assert(parent_linked(m, old_parent@));
                assert(parent_linked(m, new_parent@));
            }
            let ghost po = m[old_parent@.previous_hash];
            let ghost path_o = chain_path(m, old_parent@);
            let ghost path_po = chain_path(m, po);
            let ghost mprev = apply_blocks(Map::<Seq<char>, UtxoEntryV>::empty(), path_po);
            proof {
                assert(path_o == path_po + seq![old_parent@]);
                lemma_apply_blocks_split(Map::empty(), path_o, path_po.len() as int);
                assert(path_o.take(path_po.len() as int) =~= path_po);
                let tailb = path_o.skip(path_po.len() as int);
                assert(tailb.len() == 1);
                assert(tailb[0] == old_parent@);
                assert(tailb.drop_first().len() == 0);
                assert(mprev is Some);
                assert(apply_txs(mprev.unwrap(), old_parent@.transactions) is Some);
                assert(apply_blocks(apply_txs(mprev.unwrap(), old_parent@.transactions).unwrap(),
                    tailb.drop_first())
                    == apply_txs(mprev.unwrap(), old_parent@.transactions));
                assert(apply_txs(mprev.unwrap(), old_parent@.transactions) == Some(self.utxo@));
                assert(old_parent@.transactions
                    == old_parent.transactions@.map_values(|t: Transaction| t@));
                assert(old_parent@.transactions.take(old_parent.transactions@.len() as int)
                    =~= old_parent@.transactions);
            }
            let upto = old_parent.transactions.len();
            revert_txs_to(&mut self.utxo, &old_parent.transactions, upto, Ghost(mprev.unwrap()));

            old_chain.push(old_parent.duplicate());
            new_chain.push(new_parent.duplicate());
            proof {
                let old_sfx0 = old_sfx;
                let new_sfx0 = new_sfx;
                old_sfx = seq![old_parent@] + old_sfx;
                new_sfx = seq![new_parent@] + new_sfx;
                assert(chain_path(m, head0) =~= path_po + old_sfx);
                assert(chain_path(m, cand) =~= chain_path(m, m[new_parent@.previous_hash])
                    + new_sfx);
                assert forall|k: int| 0 <= k < old_sfx.len() implies
                    (#[trigger] old_sfx[k]) == old_chain@[old_sfx.len() - 1 - k]@ by {
                    if k == 0 {
                        assert(old_chain@[old_chain@.len() - 1]@ == old_parent@);
                    } else {
                        assert(old_sfx[k] == old_sfx0[k - 1]);
                        assert(old_sfx0[k - 1] == old_chain@[old_sfx0.len() - 1 - (k - 1)]@);
                    }
                }
                assert forall|k: int| 0 <= k < new_sfx.len() implies
                    (#[trigger] new_sfx[k]) == new_chain@[new_sfx.len() - 1 - k]@ by {
                    if k == 0 {
                        assert(new_chain@[new_chain@.len() - 1]@ == new_parent@);
                    } else {
                        assert(new_sfx[k] == new_sfx0[k - 1]);
                        assert(new_sfx0[k - 1] == new_chain@[new_sfx0.len() - 1 - (k - 1)]@);
                    }
                }
            }
            // Both walkers sit above genesis here, so their parents are indexed.
            let oi = match self.find_block(&old_parent.previous_hash) {
                Some(i) => i,
                None => {
                    proof {
                        assert(false);
                    }
                    0
                },
            };
            let ghost prev_old = old_parent@;
            let ghost prev_new = new_parent@;
            old_parent = self.blocks[oi].duplicate();
            let ni = match self.find_block(&new_parent.previous_hash) {
                Some(i) => i,
                None => {
                    proof {
                        assert(false);
                    }
                    0
                },
            };
            new_parent = self.blocks[ni].duplicate();
            proof {
                assert(old_parent@ == m[prev_old.previous_hash]);
                assert(new_parent@ == m[prev_new.previous_hash]);
                assert(spec_fork(m, prev_old, prev_new)
                    == spec_fork(m, old_parent@, new_parent@));
            }
        }

        let ghost fork = old_parent@;
        let ghost fork_state = self.utxo@;
        let ghost seg = new_sfx;
        let ghost oldseg = old_sfx;
        proof {
            assert(old_parent@.hash == new_parent@.hash);
            assert(new_parent@ == m[old_parent@.hash]);
            assert(old_parent@ == new_parent@);
            assert(spec_fork(m, fork, fork) == fork);
            assert(spec_fork(m, head0, m[cand.previous_hash]) == fork);
            assert(chain_path(m, cand).skip(chain_path(m, fork).len() as int) =~= seg);
            assert(chain_path(m, head0).skip(chain_path(m, fork).len() as int) =~= oldseg);
            assert(seg.take(0).len() == 0);
            assert(apply_blocks_checked(fork_state, seg.take(0)) == Some(fork_state));
        }

        let mut bi: usize = new_chain.len();
        while bi > 0
            invariant
                self.utxo.wf(),
                self.blocks == old(self).blocks,
                self.head == old(self).head,
                self.config == old(self).config,
                old(self).wf(),
                m == old(self).block_map(),
                cand == next_block@,
                head0 == old(self).spec_head(),
                bi <= new_chain@.len(),
                cand.index == head0.index + 1,
                seg.len() == new_chain@.len(),
                forall|k: int| 0 <= k < seg.len()
                    ==> (#[trigger] seg[k]) == new_chain@[seg.len() - 1 - k]@,
                oldseg.len() == old_chain@.len(),
                forall|k: int| 0 <= k < oldseg.len()
                    ==> (#[trigger] oldseg[k]) == old_chain@[oldseg.len() - 1 - k]@,
                apply_blocks_checked(fork_state, seg.take(seg.len() - bi)) == Some(self.utxo@),
                apply_blocks(Map::<Seq<char>, UtxoEntryV>::empty(), chain_path(m, fork))
                    == Some(fork_state),
                chain_path(m, head0) == chain_path(m, fork) + oldseg,
                chain_path(m, cand) == chain_path(m, fork) + seg,
                spec_fork(m, head0, m[cand.previous_hash]) == fork,
            decreases bi,
        {
            bi = bi - 1;
            let ghost done = seg.len() - 1 - bi;
            let ghost mb = self.utxo@;
            let ghost txsv = new_chain@[bi as int]@.transactions;
            proof {
                assert(seg[done] == new_chain@[bi as int]@);
                assert(txsv.take(0).len() == 0);
                assert(apply_txs_checked(mb, txsv.take(0)) == Some(mb));
                assert(txsv == new_chain@[bi as int].transactions@.map_values(
                    |t: Transaction| t@));
            }
            let mut ti: usize = 0;
            while ti < new_chain[bi].transactions.len()
                invariant
                    self.utxo.wf(),
                    self.blocks == old(self).blocks,
                    self.head == old(self).head,
                    self.config == old(self).config,
                    old(self).wf(),
                    m == old(self).block_map(),
                    cand == next_block@,
                    head0 == old(self).spec_head(),
                    bi < new_chain@.len(),
                    cand.index == head0.index + 1,
                    seg.len() == new_chain@.len(),
                    forall|k: int| 0 <= k < seg.len()
                        ==> (#[trigger] seg[k]) == new_chain@[seg.len() - 1 - k]@,
                    oldseg.len() == old_chain@.len(),
                    forall|k: int| 0 <= k < oldseg.len()
                        ==> (#[trigger] oldseg[k]) == old_chain@[oldseg.len() - 1 - k]@,
                    done == seg.len() - 1 - bi,
                    txsv == new_chain@[bi as int]@.transactions,
                    txsv == new_chain@[bi as int].transactions@.map_values(
                        |t: Transaction| t@),
                    ti <= txsv.len(),
                    txsv.len() == new_chain@[bi as int].transactions@.len(),
                    apply_blocks_checked(fork_state, seg.take(done)) == Some(mb),
                    apply_txs_checked(mb, txsv.take(ti as int)) == Some(self.utxo@),
                    apply_blocks(Map::<Seq<char>, UtxoEntryV>::empty(), chain_path(m, fork))
                        == Some(fork_state),
                    chain_path(m, head0) == chain_path(m, fork) + oldseg,
                    chain_path(m, cand) == chain_path(m, fork) + seg,
                    spec_fork(m, head0, m[cand.previous_hash]) == fork,
                decreases txsv.len() - ti,
            {
                let ghost cur = self.utxo@;
                let tx = &new_chain[bi].transactions[ti];
                proof {
                    assert(tx@ == txsv[ti as int]);
                }
                let can = self.utxo.can_spend(tx);
                let ok = can.is_ok();
                let mut applied = false;
                if ok {
                    let sr = self.utxo.spend(tx);
                    applied = sr.is_ok();
                }
                if !applied {
                    proof {
                        assert(self.utxo@ == cur);
                        assert(!can_apply(cur, txsv[ti as int]));
                        lemma_apply_txs_checked_split(mb, txsv, ti as int);
                        assert(txsv.skip(ti as int)[0] == txsv[ti as int]);
                        assert(apply_txs_checked(cur, txsv.skip(ti as int)) is None);
                        assert(apply_txs_checked(mb, txsv) is None);
                        lemma_apply_blocks_checked_split(fork_state, seg, done);
                        assert(seg.skip(done)[0] == seg[done]);
                        assert(apply_blocks_checked(mb, seg.skip(done)) is None);
                        assert(apply_blocks_checked(fork_state, seg) is None);
                        lemma_apply_txs_checked_implies_plain(mb, txsv.take(ti as int));
                        lemma_apply_blocks_checked_implies_plain(fork_state, seg.take(done));
                    }
                    revert_txs_to(&mut self.utxo, &new_chain[bi].transactions, ti, Ghost(mb));
                    let nlen = new_chain.len();
                    let mut b2: usize = bi + 1;
                    proof {
                        assert(bi < nlen);
                        assert(self.utxo@ == mb);
                        assert(apply_blocks(fork_state, seg.take(seg.len() - b2))
                            == Some(self.utxo@));
                    }
                    while b2 < new_chain.len()
                        invariant
                            self.utxo.wf(),
                            self.blocks == old(self).blocks,
                            self.head == old(self).head,
                            self.config == old(self).config,
                            old(self).wf(),
                            m == old(self).block_map(),
                            head0 == old(self).spec_head(),
                            b2 <= new_chain@.len(),
                            seg.len() == new_chain@.len(),
                            forall|k: int| 0 <= k < seg.len()
                                ==> (#[trigger] seg[k]) == new_chain@[seg.len() - 1 - k]@,
                            oldseg.len() == old_chain@.len(),
                            forall|k: int| 0 <= k < oldseg.len()
                                ==> (#[trigger] oldseg[k]) == old_chain@[oldseg.len() - 1 - k]@,
                            apply_blocks(fork_state, seg.take(seg.len() - b2))
                                == Some(self.utxo@),
                            apply_blocks(Map::<Seq<char>, UtxoEntryV>::empty(),
                                chain_path(m, fork)) == Some(fork_state),
                            chain_path(m, head0) == chain_path(m, fork) + oldseg,
                        decreases new_chain@.len() - b2,
                    {
                        let ghost r_cnt = seg.len() - b2;
                        let ghost base2 = apply_blocks(fork_state, seg.take(r_cnt - 1));
                        proof {
                            lemma_apply_blocks_split(fork_state, seg.take(r_cnt), r_cnt - 1);
                            assert(seg.take(r_cnt).take(r_cnt - 1) =~= seg.take(r_cnt - 1));
                            let tailb = seg.take(r_cnt).skip(r_cnt - 1);
                            assert(tailb.len() == 1);
                            assert(tailb[0] == seg[r_cnt - 1]);
                            assert(seg[r_cnt - 1] == new_chain@[b2 as int]@);
                            assert(tailb.drop_first().len() == 0);
                            assert(base2 is Some);
                            let btxs = new_chain@[b2 as int]@.transactions;
                            assert(apply_txs(base2.unwrap(), btxs) is Some);
                            assert(apply_blocks(apply_txs(base2.unwrap(), btxs).unwrap(),
                                tailb.drop_first()) == apply_txs(base2.unwrap(), btxs));
                            assert(apply_txs(base2.unwrap(), btxs) == Some(self.utxo@));
                            assert(btxs == new_chain@[b2 as int].transactions@.map_values(
                                |t: Transaction| t@));
                            assert(btxs.take(new_chain@[b2 as int].transactions@.len() as int)
                                =~= btxs);
                        }
                        let upto2 = new_chain[b2].transactions.len();
                        revert_txs_to(&mut self.utxo, &new_chain[b2].transactions, upto2,
                            Ghost(base2.unwrap()));
                        b2 = b2 + 1;
                    }
                    proof {
                        assert(seg.take(0).len() == 0);
                        assert(self.utxo@ == fork_state);
                        lemma_apply_blocks_split(Map::empty(), chain_path(m, head0),
                            chain_path(m, fork).len() as int);
                        assert(chain_path(m, head0).take(chain_path(m, fork).len() as int)
                            =~= chain_path(m, fork));
                        assert(chain_path(m, head0).skip(chain_path(m, fork).len() as int)
                            =~= oldseg);
                        assert(apply_blocks(fork_state, oldseg)
                            == Some(old(self).utxo_map()));
                        assert(oldseg.take(0).len() == 0);
                    }
                    let mut oi2: usize = old_chain.len();
                    while oi2 > 0
                        invariant
                            self.utxo.wf(),
                            self.blocks == old(self).blocks,
                            self.head == old(self).head,
                            self.config == old(self).config,
                            old(self).wf(),
                            oi2 <= old_chain@.len(),
                            oldseg.len() == old_chain@.len(),
                            forall|k: int| 0 <= k < oldseg.len()
                                ==> (#[trigger] oldseg[k]) == old_chain@[oldseg.len() - 1 - k]@,
                            apply_blocks(fork_state, oldseg) == Some(old(self).utxo_map()),
                            apply_blocks(fork_state, oldseg.take(oldseg.len() - oi2))
                                == Some(self.utxo@),
                        decreases oi2,
                    {
                        oi2 = oi2 - 1;
                        let ghost a = oldseg.len() - 1 - oi2;
                        let ghost btxs = old_chain@[oi2 as int]@.transactions;
                        proof {
                            lemma_apply_blocks_split(fork_state, oldseg, a);
                            assert(oldseg.skip(a)[0] == oldseg[a]);
                            assert(oldseg[a] == old_chain@[oi2 as int]@);
                            assert(apply_txs(self.utxo@, btxs) is Some);
                            assert(btxs == old_chain@[oi2 as int].transactions@.map_values(
                                |t: Transaction| t@));
                            lemma_apply_blocks_split(fork_state, oldseg.take(a + 1), a);
                            assert(oldseg.take(a + 1).take(a) =~= oldseg.take(a));
                            let tailb = oldseg.take(a + 1).skip(a);
                            assert(tailb.len() == 1);
                            assert(tailb[0] == oldseg[a]);
                            assert(tailb.drop_first().len() == 0);
                            assert(apply_blocks(apply_txs(self.utxo@, btxs).unwrap(),
                                tailb.drop_first()) == apply_txs(self.utxo@, btxs));
                        }
                        let ghost tgt = apply_txs(self.utxo@, btxs).unwrap();
                        apply_txs_all(&mut self.utxo, &old_chain[oi2].transactions, Ghost(tgt));
                        proof {
                            assert(apply_blocks(fork_state, oldseg.take(a + 1))
                                == Some(self.utxo@));
                        }
                    }
                    proof {
                        assert(oldseg.take(oldseg.len() as int) =~= oldseg);
                        assert(self.utxo@ == old(self).utxo_map());
                        assert(chain_path(m, cand).skip(chain_path(m, fork).len() as int)
                            =~= seg);
                        assert(!spec_reorg_ok(m, head0, cand));
                    }
                    return Err(ChainException(String::from_str("Invalid transaction found.")));
                }
                proof {
                    assert(can_apply(cur, txsv[ti as int]));
                    assert(Some(self.utxo@) == spec_spend(cur, txsv[ti as int]));
                    lemma_apply_txs_checked_split(mb, txsv.take(ti + 1), ti as int);
                    assert(txsv.take(ti + 1).take(ti as int) =~= txsv.take(ti as int));
                    let tail = txsv.take(ti + 1).skip(ti as int);
                    assert(tail.len() == 1);
                    assert(tail[0] == txsv[ti as int]);
                    assert(tail.drop_first().len() == 0);
                    assert(apply_txs_checked(self.utxo@, tail.drop_first())
                        == Some(self.utxo@));
                    assert(apply_txs_checked(cur, tail) == Some(self.utxo@));
                }
                ti = ti + 1;
            }
            proof {
                assert(txsv.take(txsv.len() as int) =~= txsv);
                assert(apply_txs_checked(mb, txsv) == Some(self.utxo@));
                lemma_apply_blocks_checked_split(fork_state, seg.take(done + 1), done);
                assert(seg.take(done + 1).take(done) =~= seg.take(done));
                let tailb = seg.take(done + 1).skip(done);
                assert(tailb.len() == 1);
                assert(tailb[0] == seg[done]);
                assert(tailb.drop_first().len() == 0);
                assert(apply_blocks_checked(self.utxo@, tailb.drop_first())
                    == Some(self.utxo@));
                assert(apply_blocks_checked(mb, tailb) == Some(self.utxo@));
                assert(apply_blocks_checked(fork_state, seg.take(done + 1))
                    == Some(self.utxo@));
                assert(seg.len() - bi == done + 1);
            }
        }
        proof {
            assert(seg.take(seg.len() as int) =~= seg);
            assert(apply_blocks_checked(fork_state, seg) == Some(self.utxo@));
            assert(spec_reorg_ok(m, head0, cand));
        }
        self.head = next_block;
        proof {
            lemma_apply_blocks_checked_implies_plain(fork_state, seg);
            lemma_apply_blocks_split(Map::empty(), chain_path(m, cand),
                chain_path(m, fork).len() as int);
            assert(chain_path(m, cand).take(chain_path(m, fork).len() as int)
                =~= chain_path(m, fork));
            assert(chain_path(m, cand).skip(chain_path(m, fork).len() as int) =~= seg);
            assert(replay(m, cand) == Some(self.utxo@));
        }
        Ok(())
    }
}

} // verus!

// Block admission.

verus! {

impl Chain {
    /// Admits a candidate block: refuses a duplicate hash, a missing parent,
    /// or a chain-rule violation, in that order, leaving the chain unchanged;
    /// otherwise indexes the block unconditionally (side branches are kept
    /// for future reorgs) and, exactly when the candidate's index exceeds the
    /// head's, attempts the head update / reorg. A failed reorg leaves the
    /// block indexed but the head and the UTXO set exactly as they were.
    pub fn add_block(&mut self, next_block: Block) -> (r: Result<(), ChainError>)
        requires
            old(self).wf(),
        ensures
            final(self).wf(),
            final(self).spec_config() == old(self).spec_config(),
            old(self).block_map().contains_key(next_block@.hash) ==> {
                &&& r matches Err(ChainError::Duplicate(_))
                &&& final(self).block_map() == old(self).block_map()
                &&& final(self).spec_head() == old(self).spec_head()
                &&& final(self).utxo_map() == old(self).utxo_map()
            },
            !old(self).block_map().contains_key(next_block@.hash)
                && !old(self).block_map().contains_key(next_block@.previous_hash) ==> {
                &&& r matches Err(ChainError::NoParent(_))
                &&& final(self).block_map() == old(self).block_map()
                &&& final(self).spec_head() == old(self).spec_head()
                &&& final(self).utxo_map() == old(self).utxo_map()
            },
            !old(self).block_map().contains_key(next_block@.hash)
                && old(self).block_map().contains_key(next_block@.previous_hash)
                && !spec_verify_next_block(
                    old(self).block_map()[next_block@.previous_hash],
                    next_block@,
                    old(self).blocks_seq(),
                    old(self).spec_config(),
                ) ==> {
                &&& r matches Err(ChainError::Invalid(e)) && e.0@
                    == "New block could not be verified. Message: "@ + spec_verify_message(
                    old(self).block_map()[next_block@.previous_hash],
                    next_block@,
                    old(self).blocks_seq(),
                    old(self).spec_config(),
                )
                &&& final(self).block_map() == old(self).block_map()
                &&& final(self).spec_head() == old(self).spec_head()
                &&& final(self).utxo_map() == old(self).utxo_map()
            },
            !old(self).block_map().contains_key(next_block@.hash)
                && old(self).block_map().contains_key(next_block@.previous_hash)
                && spec_verify_next_block(
                    old(self).block_map()[next_block@.previous_hash],
                    next_block@,
                    old(self).blocks_seq(),
                    old(self).spec_config(),
                ) ==> {
                &&& final(self).block_map()
                    == old(self).block_map().insert(next_block@.hash, next_block@)
                &&& next_block@.index <= old(self).spec_head().index ==> {
                    &&& r is Ok
                    &&& final(self).spec_head() == old(self).spec_head()
                    &&& final(self).utxo_map() == old(self).utxo_map()
                }
                &&& next_block@.index == old(self).spec_head().index + 1 ==> {
                    &&& (r is Ok) == spec_reorg_ok(final(self).block_map(),
                        old(self).spec_head(), next_block@)
                    &&& r is Ok ==> final(self).spec_head() == next_block@
                    &&& !(r is Ok) ==> {
                        &&& r matches Err(ChainError::Invalid(e)) && e.0@
                            == "Invalid transaction found."@
                        &&& final(self).spec_head() == old(self).spec_head()
                        &&& final(self).utxo_map() == old(self).utxo_map()
                    }
                }
                &&& next_block@.index > old(self).spec_head().index + 1 ==> {
                    &&& r matches Err(ChainError::Invalid(e)) && e.0@
                        == "Block added to block chain index is invalid"@
                    &&& final(self).spec_head() == old(self).spec_head()
                    &&& final(self).utxo_map() == old(self).utxo_map()
                }
            },
    {
        let ghost m0 = old(self).block_map();
        match self.find_block(&next_block.hash) {
            Some(_) => {
                return Err(ChainError::Duplicate(DuplicateBlockException));
            },
            None => {},
        }
        let pi = match self.find_block(&next_block.previous_hash) {
            Some(i) => i,
            None => {
                return Err(ChainError::NoParent(NoParentException));
            },
        };
        let (is_verified, msg) = verify_next_block(&self.blocks[pi], &next_block, &self.blocks,
            &self.config);
        if !is_verified {
            let mut emsg = String::from_str("New block could not be verified. Message: ");
            emsg.append(msg.as_str());
            return Err(ChainError::Invalid(ChainException(emsg)));
        }
        let ghost sv0 = self.blocks_seq();
        let ghost head0 = self.head@;
        proof {
            lemma_blocks_map_contains(sv0, next_block@.hash);
        }
        self.blocks.push(next_block.duplicate());
        proof {
            assert(self.blocks_seq() =~= sv0.push(next_block@));
            assert(self.blocks_seq().drop_last() =~= sv0);
            assert(self.blocks_seq().last() == next_block@);
            let m1 = self.block_map();
            assert(m1 == m0.insert(next_block@.hash, next_block@));
            assert(blocks_distinct(self.blocks_seq())) by {
                assert(forall|k: int| 0 <= k < sv0.len()
                    ==> (#[trigger] sv0[k]).hash != next_block@.hash);
                assert(forall|k: int| 0 <= k < sv0.len()
                    ==> self.blocks_seq()[k] == sv0[k]);
            }
            assert(next_block@.index == m0[next_block@.previous_hash].index + 1);
            assert(index_wf(m1)) by {
                assert(next_block@.previous_hash != next_block@.hash);
                assert(parent_linked(m1, next_block@));
                assert(genesis_block_v().hash != next_block@.hash);
                assert forall|h: Seq<char>| #[trigger] m1.contains_key(h)
                    && m1[h].index > 0 implies parent_linked(m1, m1[h]) by {
                    if h != next_block@.hash {
                        assert(m0.contains_key(h));
                        assert(parent_linked(m0, m0[h]));
                        assert(m0[h].previous_hash != next_block@.hash);
                    }
                }
            }
            lemma_path_insert(m0, next_block@, head0);
            assert(replay(m1, head0) == replay(m0, head0));
            assert(m1.contains_key(next_block@.hash));
            assert(m1[next_block@.hash] == next_block@);
        }
        if next_block.index > self.head.index {
            match self.update_utxo_and_head(next_block) {
                Ok(()) => Ok(()),
                Err(e) => Err(ChainError::Invalid(e)),
            }
        } else {
            Ok(())
        }
    }
}

} // verus!

// The initial ledger state.

verus! {

/// Applying the genesis block's coinbase transaction to an empty ledger
/// leaves exactly one entry: the genesis mint, with its single output
/// unspent. Together with `Chain::new`'s contract, a fresh chain's head is
/// the genesis block at index 0 and its UTXO set shows that one output.
pub proof fn lemma_genesis_utxo_state()
    ensures
        ({
            let u = apply_txs(Map::<Seq<char>, UtxoEntryV>::empty(),
                genesis_block_v().transactions);
            &&& u is Some
            &&& u.unwrap().contains_key(genesis_tx_v().hash)
            &&& u.unwrap()[genesis_tx_v().hash].tx == genesis_tx_v()
            &&& u.unwrap()[genesis_tx_v().hash].unspent == full_indices(1)
            &&& u.unwrap().dom() =~= set![genesis_tx_v().hash]
        }),
{
    let e = Map::<Seq<char>, UtxoEntryV>::empty();
    let txs = genesis_block_v().transactions;
    assert(txs =~= seq![genesis_tx_v()]);
    assert(txs.len() == 1);
    assert(txs[0] == genesis_tx_v());
    assert(genesis_tx_v().inputs.len() == 0);
    assert(spend_inputs(e, genesis_tx_v().inputs) == Some(e));
    assert(!e.contains_key(genesis_tx_v().hash));
    assert(genesis_tx_v().outputs.len() == 1);
    let u1 = e.insert(genesis_tx_v().hash,
        UtxoEntryV { tx: genesis_tx_v(), unspent: full_indices(1) });
    assert(spec_spend(e, genesis_tx_v()) == Some(u1));
    assert(txs.drop_first().len() == 0);
    assert(apply_txs(u1, txs.drop_first()) == Some(u1));
    assert(apply_txs(e, txs) == Some(u1));
}

} // verus!
