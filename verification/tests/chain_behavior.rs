use avercoin::block::{create_from_fields, genesis_block, hash_block, Block};
use avercoin::chain::{verify_next_block, Chain, ChainError};
use avercoin::difficulty::DifficultyConfig;
use avercoin::transaction::{Transaction, TransactionInput, TransactionOutput};

fn cfg() -> DifficultyConfig {
    DifficultyConfig::new(10, 2, 3, 100, 5)
}

fn transfer(from_hash: &str, index: usize, to: &str, amount: u64) -> Transaction {
    Transaction::new(
        vec![TransactionInput::new(from_hash.to_string(), index)],
        vec![TransactionOutput::new(to.to_string(), amount)],
    )
}

fn child_of(parent: &Block, timestamp: u64, txs: Vec<Transaction>) -> Block {
    Block::new(parent.index + 1, timestamp, txs, 0, parent.hash.clone())
}

#[test]
fn recomputed_hash_matches_stored_hash() {
    let b = genesis_block();
    let recomputed = hash_block(b.index, b.timestamp, &b.transactions, b.noonce,
        &b.previous_hash);
    assert_eq!(recomputed, b.hash);
    let c = child_of(&b, 99, vec![]);
    let recomputed_c = hash_block(c.index, c.timestamp, &c.transactions, c.noonce,
        &c.previous_hash);
    assert_eq!(recomputed_c, c.hash);
}

#[test]
fn mutating_any_field_fails_the_integrity_check() {
    let g = genesis_block();
    let b = child_of(&g, 99, vec![]);
    // Reloading the unchanged fields with the stored hash passes.
    assert!(create_from_fields(b.index, b.timestamp, vec![], b.noonce,
        b.previous_hash.clone(), b.hash.clone()).is_ok());
    // Each mutated field makes the recomputed hash disagree with the stored one.
    assert!(create_from_fields(b.index + 1, b.timestamp, vec![], b.noonce,
        b.previous_hash.clone(), b.hash.clone()).is_err());
    assert!(create_from_fields(b.index, b.timestamp + 1, vec![], b.noonce,
        b.previous_hash.clone(), b.hash.clone()).is_err());
    assert!(create_from_fields(b.index, b.timestamp, vec![], b.noonce + 1,
        b.previous_hash.clone(), b.hash.clone()).is_err());
    assert!(create_from_fields(b.index, b.timestamp, vec![], b.noonce,
        "somewhere else".to_string(), b.hash.clone()).is_err());
    let extra = Transaction::new(vec![], vec![TransactionOutput::new("X".to_string(), 1)]);
    assert!(create_from_fields(b.index, b.timestamp, vec![extra], b.noonce,
        b.previous_hash.clone(), b.hash.clone()).is_err());
}

#[test]
fn block_equality_is_by_recomputed_hash() {
    let g = genesis_block();
    let a = child_of(&g, 99, vec![]);
    let b = child_of(&g, 99, vec![]);
    let c = child_of(&g, 100, vec![]);
    assert!(a == b);
    assert!(!(a == c));
}

#[test]
fn genesis_is_initial_head_with_unspent_coinbase() {
    let chain = Chain::new(cfg());
    let head = chain.head();
    assert_eq!(head.index, 0);
    assert_eq!(head.transactions.len(), 1);
    let coinbase = &head.transactions[0];
    assert!(coinbase.inputs.is_empty());
    assert_eq!(coinbase.outputs.len(), 1);
    assert_eq!(coinbase.outputs[0].amount, 100);
    assert!(chain.utxo().is_unspent(&coinbase.hash, 0));
}

#[test]
fn duplicate_block_is_refused_and_state_unchanged() {
    let mut chain = Chain::new(cfg());
    let b1 = child_of(chain.head(), 50, vec![]);
    assert!(chain.add_block(b1.duplicate()).is_ok());
    assert_eq!(chain.head().hash, b1.hash);
    let coinbase_hash = genesis_block().transactions[0].hash.clone();
    assert!(chain.utxo().is_unspent(&coinbase_hash, 0));
    match chain.add_block(b1.duplicate()) {
        Err(ChainError::Duplicate(_)) => {},
        _ => panic!("expected a duplicate-block rejection"),
    }
    assert_eq!(chain.head().hash, b1.hash);
    assert!(chain.utxo().is_unspent(&coinbase_hash, 0));
}

#[test]
fn unknown_parent_is_refused() {
    let mut chain = Chain::new(cfg());
    let orphan = Block::new(1, 50, vec![], 0, "nobody knows this hash".to_string());
    match chain.add_block(orphan) {
        Err(ChainError::NoParent(_)) => {},
        _ => panic!("expected a no-parent rejection"),
    }
    assert_eq!(chain.head().index, 0);
}

#[test]
fn tampered_block_is_refused_with_reason() {
    let mut chain = Chain::new(cfg());
    let mut b1 = child_of(chain.head(), 50, vec![]);
    b1.timestamp = b1.timestamp + 1;
    match chain.add_block(b1) {
        Err(ChainError::Invalid(e)) => {
            assert_eq!(e.message().as_str(),
                "New block could not be verified. Message: Invalid block hash.");
        },
        _ => panic!("expected a verification rejection"),
    }
    assert_eq!(chain.head().index, 0);
}

#[test]
fn verify_next_block_reports_each_rule() {
    let config = cfg();
    let g = genesis_block();
    let good = child_of(&g, 50, vec![]);
    let blocks: Vec<Block> = vec![g.duplicate()];
    let (ok, msg) = verify_next_block(&g, &good, &blocks, &config);
    assert!(ok);
    assert_eq!(msg, "Verified");

    let bad_index = Block::new(5, 50, vec![], 0, g.hash.clone());
    let (ok1, m1) = verify_next_block(&g, &bad_index, &blocks, &config);
    assert!(!ok1);
    assert_eq!(m1, "Invalid index.");

    let bad_prev = Block::new(1, 50, vec![], 0, "wrong parent".to_string());
    let (ok2, m2) = verify_next_block(&g, &bad_prev, &blocks, &config);
    assert!(!ok2);
    assert_eq!(m2, "Invalid previous hash.");

    let mut tampered = child_of(&g, 50, vec![]);
    tampered.noonce = 1;
    let (ok3, m3) = verify_next_block(&g, &tampered, &blocks, &config);
    assert!(!ok3);
    assert_eq!(m3, "Invalid block hash.");
}

#[test]
fn transfer_consumes_and_creates_outputs() {
    let mut chain = Chain::new(cfg());
    let coinbase_hash = chain.head().transactions[0].hash.clone();
    // The genesis mint of 100 is spent into an output for B; the balance
    // policy admits only transactions whose input total is below the output
    // total, so the transfer carries 150.
    let tx = transfer(&coinbase_hash, 0, "B", 150);
    let tx_hash = tx.hash.clone();
    let b1 = child_of(chain.head(), 50, vec![tx]);
    assert!(chain.add_block(b1).is_ok());
    assert!(chain.utxo().is_unspent(&tx_hash, 0));
    assert!(!chain.utxo().is_unspent(&coinbase_hash, 0));
    // Reusing the consumed output is rejected by validation.
    let reuse = transfer(&coinbase_hash, 0, "C", 150);
    assert_eq!(chain.utxo().can_spend(&reuse),
        Err("Referenced UTXO does not exist.".to_string()));
}

#[test]
fn get_transaction_finds_indexed_transactions() {
    let mut chain = Chain::new(cfg());
    let coinbase_hash = chain.head().transactions[0].hash.clone();
    let tx = transfer(&coinbase_hash, 0, "B", 150);
    let tx_hash = tx.hash.clone();
    let b1 = child_of(chain.head(), 50, vec![tx]);
    chain.add_block(b1).unwrap();
    let found = chain.get_transaction(&tx_hash).expect("transaction should be indexed");
    assert_eq!(found.hash, tx_hash);
    assert_eq!(found.outputs[0].address, "B");
    assert!(chain.get_transaction("absent").is_none());
}

#[test]
fn reorg_matches_full_reconstruction_of_the_winning_branch() {
    // Branch A: genesis -> a1. Branch B: genesis -> b1 -> b2, where b1
    // differs from a1 by timestamp. Adding b2 reorganizes from A to B.
    let mut chain = Chain::new(cfg());
    let coinbase_hash = chain.head().transactions[0].hash.clone();

    let a_tx = transfer(&coinbase_hash, 0, "A", 150);
    let a_tx_hash = a_tx.hash.clone();
    let a1 = child_of(chain.head(), 50, vec![a_tx]);
    chain.add_block(a1).unwrap();

    let b_tx = transfer(&coinbase_hash, 0, "B", 160);
    let b_tx_hash = b_tx.hash.clone();
    let b1 = child_of(&genesis_block(), 60, vec![b_tx.duplicate()]);
    let b2_tx = transfer(&b_tx_hash, 0, "C", 200);
    let b2_tx_hash = b2_tx.hash.clone();
    let b2 = child_of(&b1, 70, vec![b2_tx.duplicate()]);

    // b1 lands on a side branch: indexed, but the head stays at a1.
    chain.add_block(b1.duplicate()).unwrap();
    assert_eq!(chain.head().index, 1);
    assert!(chain.utxo().is_unspent(&a_tx_hash, 0));

    // b2 exceeds the head's index and triggers the reorg.
    chain.add_block(b2.duplicate()).unwrap();
    assert_eq!(chain.head().hash, b2.hash);

    // A full reconstruction along branch B gives the identical UTXO view.
    let mut fresh = Chain::new(cfg());
    fresh.add_block(b1).unwrap();
    fresh.add_block(b2).unwrap();
    for (hash, index) in [
        (&coinbase_hash, 0usize),
        (&a_tx_hash, 0),
        (&b_tx_hash, 0),
        (&b2_tx_hash, 0),
    ] {
        assert_eq!(chain.utxo().is_unspent(hash, index), fresh.utxo().is_unspent(hash, index));
        assert_eq!(chain.utxo().contains_entry(hash), fresh.utxo().contains_entry(hash));
    }
    assert!(!chain.utxo().is_unspent(&b_tx_hash, 0));
    assert!(chain.utxo().is_unspent(&b2_tx_hash, 0));
    assert!(!chain.utxo().contains_entry(&a_tx_hash));
}

#[test]
fn failed_reorg_restores_the_pre_reorg_state() {
    let mut chain = Chain::new(cfg());
    let coinbase_hash = chain.head().transactions[0].hash.clone();

    let a_tx = transfer(&coinbase_hash, 0, "A", 150);
    let a_tx_hash = a_tx.hash.clone();
    let a1 = child_of(chain.head(), 50, vec![a_tx]);
    chain.add_block(a1.duplicate()).unwrap();

    // Branch B re-spends the same coinbase output in b1, then b2 tries to
    // double-spend it again: validation fails partway through re-application.
    let b_tx = transfer(&coinbase_hash, 0, "B", 160);
    let b1 = child_of(&genesis_block(), 60, vec![b_tx]);
    let bad_tx = transfer(&coinbase_hash, 0, "C", 170);
    let b2 = child_of(&b1, 70, vec![bad_tx]);

    chain.add_block(b1).unwrap();
    match chain.add_block(b2) {
        Err(ChainError::Invalid(e)) => {
            assert_eq!(e.message().as_str(), "Invalid transaction found.");
        },
        _ => panic!("expected the reorg to fail"),
    }
    // The head and the UTXO set are exactly as before the attempt.
    assert_eq!(chain.head().hash, a1.hash);
    assert!(chain.utxo().is_unspent(&a_tx_hash, 0));
    assert!(!chain.utxo().is_unspent(&coinbase_hash, 0));
    assert!(chain.utxo().contains_entry(&coinbase_hash));
}

#[test]
fn deep_catch_up_is_refused_but_block_stays_indexed() {
    let mut chain = Chain::new(cfg());
    let coinbase_hash = chain.head().transactions[0].hash.clone();

    // A side branch whose tip could not be adopted: b1 double-spends nothing
    // but b2's transaction is invalid, so b2 stays indexed off-head.
    let a_tx = transfer(&coinbase_hash, 0, "A", 150);
    let a1 = child_of(chain.head(), 50, vec![a_tx]);
    chain.add_block(a1.duplicate()).unwrap();

    let b_tx = transfer(&coinbase_hash, 0, "B", 160);
    let b1 = child_of(&genesis_block(), 60, vec![b_tx]);
    let bad_tx = transfer(&coinbase_hash, 0, "C", 170);
    let b2 = child_of(&b1, 70, vec![bad_tx]);
    chain.add_block(b1).unwrap();
    let _ = chain.add_block(b2.duplicate());

    // A child of the rejected tip arrives: it is two steps past the head,
    // and the single-step reorg refuses it while keeping it indexed.
    let b3 = child_of(&b2, 80, vec![]);
    match chain.add_block(b3.duplicate()) {
        Err(ChainError::Invalid(e)) => {
            assert_eq!(e.message().as_str(), "Block added to block chain index is invalid");
        },
        _ => panic!("expected the deep catch-up to be refused"),
    }
    assert_eq!(chain.head().hash, a1.hash);
    match chain.add_block(b3) {
        Err(ChainError::Duplicate(_)) => {},
        _ => panic!("the refused block should still be indexed"),
    }
}

#[test]
fn reorg_walks_back_across_several_blocks() {
    // Branch A: genesis -> a1 -> a2 (each minting to an A-side address).
    // Branch B: genesis -> b1 -> b2 -> b3. Adding b3 forces a walk back to
    // the fork point at genesis, two blocks deep, before re-application.
    let mut chain = Chain::new(cfg());
    let mint = |addr: &str, amount: u64| {
        Transaction::new(vec![], vec![TransactionOutput::new(addr.to_string(), amount)])
    };

    let a1_tx = mint("A1", 10);
    let a1 = child_of(chain.head(), 50, vec![a1_tx.duplicate()]);
    let a2_tx = mint("A2", 20);
    let a2 = child_of(&a1, 55, vec![a2_tx.duplicate()]);
    chain.add_block(a1).unwrap();
    chain.add_block(a2.duplicate()).unwrap();
    assert_eq!(chain.head().hash, a2.hash);

    let b1_tx = mint("B1", 30);
    let b1 = child_of(&genesis_block(), 60, vec![b1_tx.duplicate()]);
    let b2_tx = mint("B2", 40);
    let b2 = child_of(&b1, 65, vec![b2_tx.duplicate()]);
    let b3_tx = mint("B3", 50);
    let b3 = child_of(&b2, 70, vec![b3_tx.duplicate()]);

    chain.add_block(b1).unwrap();
    chain.add_block(b2).unwrap();
    assert_eq!(chain.head().hash, a2.hash);
    chain.add_block(b3.duplicate()).unwrap();
    assert_eq!(chain.head().hash, b3.hash);

    // Branch B's mints are applied; branch A's are gone.
    assert!(chain.utxo().is_unspent(&b1_tx.hash, 0));
    assert!(chain.utxo().is_unspent(&b2_tx.hash, 0));
    assert!(chain.utxo().is_unspent(&b3_tx.hash, 0));
    assert!(!chain.utxo().contains_entry(&a1_tx.hash));
    assert!(!chain.utxo().contains_entry(&a2_tx.hash));
    // The genesis coinbase is unspent on either branch.
    let coinbase_hash = genesis_block().transactions[0].hash.clone();
    assert!(chain.utxo().is_unspent(&coinbase_hash, 0));
}

#[test]
fn multi_input_transfer_consumes_all_referenced_outputs() {
    let mut chain = Chain::new(cfg());
    let coinbase_hash = chain.head().transactions[0].hash.clone();
    // Block 1 splits value across two outputs.
    let split = Transaction::new(
        vec![TransactionInput::new(coinbase_hash.clone(), 0)],
        vec![
            TransactionOutput::new("L".to_string(), 60),
            TransactionOutput::new("R".to_string(), 70),
        ],
    );
    let split_hash = split.hash.clone();
    let b1 = child_of(chain.head(), 50, vec![split]);
    chain.add_block(b1).unwrap();
    assert!(chain.utxo().is_unspent(&split_hash, 0));
    assert!(chain.utxo().is_unspent(&split_hash, 1));

    // Block 2 joins both outputs again (130 in, 140 out passes the policy).
    let join = Transaction::new(
        vec![
            TransactionInput::new(split_hash.clone(), 0),
            TransactionInput::new(split_hash.clone(), 1),
        ],
        vec![TransactionOutput::new("J".to_string(), 140)],
    );
    let join_hash = join.hash.clone();
    let b2 = child_of(chain.head(), 55, vec![join]);
    chain.add_block(b2).unwrap();
    assert!(!chain.utxo().is_unspent(&split_hash, 0));
    assert!(!chain.utxo().is_unspent(&split_hash, 1));
    assert!(chain.utxo().is_unspent(&join_hash, 0));
}
