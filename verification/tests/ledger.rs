use avercoin::transaction::{Transaction, TransactionInput, TransactionOutput, create_transaction};
use avercoin::utxo::UTXOManager;

fn mint(address: &str, amount: u64) -> Transaction {
    create_transaction(vec![address.to_string()], vec![amount])
}

fn transfer(from: &Transaction, index: usize, to: &str, amount: u64) -> Transaction {
    Transaction::new(
        vec![TransactionInput::new(from.hash.clone(), index)],
        vec![TransactionOutput::new(to.to_string(), amount)],
    )
}

#[test]
fn spend_records_outputs_unspent() {
    let mut u = UTXOManager::new();
    let coin = mint("A", 100);
    assert!(u.spend(&coin).is_ok());
    assert!(u.contains_entry(&coin.hash));
    assert!(u.is_unspent(&coin.hash, 0));
    assert!(!u.is_unspent(&coin.hash, 1));
}

#[test]
fn spend_then_revert_restores_pre_spend_state() {
    let mut u = UTXOManager::new();
    let coin = mint("A", 100);
    u.spend(&coin).unwrap();
    let tx = transfer(&coin, 0, "B", 150);
    assert!(matches!(u.can_spend(&tx), Ok(true)));
    u.spend(&tx).unwrap();
    assert!(!u.is_unspent(&coin.hash, 0));
    assert!(u.is_unspent(&tx.hash, 0));
    // Revert restores the consumed index...
    u.revert(&tx).unwrap();
    assert!(u.is_unspent(&coin.hash, 0));
    // ...but removes the reverted transaction's own entry entirely, rather
    // than restoring any earlier entry under that hash.
    assert!(!u.contains_entry(&tx.hash));
}

#[test]
fn spend_rejects_missing_and_consumed_references() {
    let mut u = UTXOManager::new();
    let coin = mint("A", 100);
    let tx = transfer(&coin, 0, "B", 150);
    // The referenced entry does not exist yet.
    assert!(u.spend(&tx).is_err());
    assert!(!u.contains_entry(&tx.hash));
    u.spend(&coin).unwrap();
    u.spend(&tx).unwrap();
    // The referenced output is now consumed.
    let tx2 = transfer(&coin, 0, "C", 150);
    assert!(u.spend(&tx2).is_err());
    assert!(!u.contains_entry(&tx2.hash));
    assert!(u.is_unspent(&tx.hash, 0));
}

#[test]
fn spend_rejects_duplicate_inputs_and_leaves_state_unchanged() {
    let mut u = UTXOManager::new();
    let coin = mint("A", 100);
    u.spend(&coin).unwrap();
    let tx = Transaction::new(
        vec![
            TransactionInput::new(coin.hash.clone(), 0),
            TransactionInput::new(coin.hash.clone(), 0),
        ],
        vec![TransactionOutput::new("B".to_string(), 300)],
    );
    assert!(u.spend(&tx).is_err());
    // The first input's removal was rolled back.
    assert!(u.is_unspent(&coin.hash, 0));
    assert!(!u.contains_entry(&tx.hash));
}

#[test]
fn revert_rejects_never_spent_reference() {
    let mut u = UTXOManager::new();
    let coin = mint("A", 100);
    u.spend(&coin).unwrap();
    // Output 0 of the mint is still unspent: reverting a transaction that
    // claims to have consumed it is a double revert.
    let tx = transfer(&coin, 0, "B", 150);
    assert!(u.revert(&tx).is_err());
    assert!(u.is_unspent(&coin.hash, 0));
}

#[test]
fn can_spend_reports_each_rejection() {
    let mut u = UTXOManager::new();
    let coin = mint("A", 100);
    u.spend(&coin).unwrap();

    // Missing reference.
    let ghost_coin = mint("Z", 5);
    let t1 = transfer(&ghost_coin, 0, "B", 150);
    assert_eq!(u.can_spend(&t1), Err("Referenced UTXO does not exist.".to_string()));

    // Input total exceeding output total.
    let t2 = transfer(&coin, 0, "B", 50);
    assert_eq!(u.can_spend(&t2), Err("Input amounts do not match output amounts.".to_string()));

    // Input total equal to output total: zero-fee transfers are refused.
    let t3 = transfer(&coin, 0, "B", 100);
    assert_eq!(u.can_spend(&t3), Err("Avoid smaller amount than output.".to_string()));

    // Input total below output total passes.
    let t4 = transfer(&coin, 0, "B", 150);
    assert_eq!(u.can_spend(&t4), Ok(true));

    // A coinbase (no inputs, one output) is exempt from the balance rules:
    // even a zero-amount mint, whose totals are equal, passes.
    let t5 = mint("C", 7);
    assert_eq!(u.can_spend(&t5), Ok(true));
    let t6 = mint("C", 0);
    assert_eq!(u.can_spend(&t6), Ok(true));

    // A zero-input transaction with two outputs is not a coinbase, so the
    // equal-totals rule still applies to it.
    let t7 = create_transaction(vec!["C".to_string(), "D".to_string()], vec![0, 0]);
    assert_eq!(u.can_spend(&t7), Err("Avoid smaller amount than output.".to_string()));
}

#[test]
fn can_spend_rejects_out_of_range_reference() {
    let mut u = UTXOManager::new();
    let coin = mint("A", 100);
    u.spend(&coin).unwrap();
    // Reverting a transaction that claims to have consumed output 7 re-adds
    // that index to the mint's unspent set, though the mint has one output.
    let stray = transfer(&coin, 7, "B", 1);
    u.revert(&stray).unwrap();
    assert!(u.is_unspent(&coin.hash, 7));
    let t = transfer(&coin, 7, "B", 1);
    assert_eq!(u.can_spend(&t), Err("Referenced output does not exist.".to_string()));
}

#[test]
fn consumed_output_reads_as_spent() {
    let mut u = UTXOManager::new();
    let coin = mint("A", 100);
    u.spend(&coin).unwrap();
    let tx = transfer(&coin, 0, "B", 150);
    u.spend(&tx).unwrap();
    // The entry survives with its index consumed; a second spend of the same
    // output is refused, and validation reports the UTXO as gone.
    assert!(u.contains_entry(&coin.hash));
    assert!(!u.is_unspent(&coin.hash, 0));
    let reuse = transfer(&coin, 0, "C", 150);
    assert_eq!(u.can_spend(&reuse), Err("Referenced UTXO does not exist.".to_string()));
}
