use avercoin::digest::{hex_encode, sha256_hex, u64_to_string};
use avercoin::difficulty::{check_proof_of_work, get_update_diff, update_difficulty, DifficultyConfig};
use avercoin::block::Block;
use avercoin::transaction::{create_transaction, verify_transaction_input, Transaction, TransactionInput, TransactionOutput};

fn cfg() -> DifficultyConfig {
    DifficultyConfig::new(10, 2, 3, 100, 5)
}

#[test]
fn u64_to_string_renders_decimal() {
    assert_eq!(u64_to_string(0), "0");
    assert_eq!(u64_to_string(7), "7");
    assert_eq!(u64_to_string(12345), "12345");
    assert_eq!(u64_to_string(u64::MAX), "18446744073709551615");
}

#[test]
fn hex_encode_exact_values() {
    assert_eq!(hex_encode(&vec![]), "");
    assert_eq!(hex_encode(&vec![0xab, 0x01]), "ab01");
    assert_eq!(hex_encode(&vec![0x00, 0xff, 0x10]), "00ff10");
}

#[test]
fn sha256_hex_is_a_real_digest() {
    let h = sha256_hex("abc");
    // Not the input handed back, and a 64-character lowercase hex string.
    assert_eq!(h.len(), 64);
    assert_ne!(h, "abc");
    assert!(h.chars().all(|c| c.is_ascii_hexdigit() && !c.is_ascii_uppercase()));
    // Deterministic, and sensitive to the input.
    assert_eq!(h, sha256_hex("abc"));
    assert_ne!(h, sha256_hex("abd"));
    // The published SHA-256 test vector for "abc".
    assert_eq!(h, "ba7816bf8f01cfea414140de5dae2223b00361a396177a9cb410ff61f20015ad");
}

#[test]
fn transaction_hash_depends_on_content() {
    let a = create_transaction(vec!["A".to_string()], vec![100]);
    let b = create_transaction(vec!["A".to_string()], vec![100]);
    let c = create_transaction(vec!["A".to_string()], vec![101]);
    assert_eq!(a.hash, b.hash);
    assert_ne!(a.hash, c.hash);
    assert_eq!(a.hash.len(), 64);
    assert!(a.inputs.is_empty());
    assert_eq!(a.outputs.len(), 1);
    assert_eq!(a.outputs[0].address, "A");
    assert_eq!(a.outputs[0].amount, 100);
}

#[test]
fn verify_transaction_input_checks_range() {
    let referenced = create_transaction(vec!["A".to_string()], vec![100]);
    let spender = Transaction::new(
        vec![TransactionInput::new(referenced.hash.clone(), 0)],
        vec![TransactionOutput::new("B".to_string(), 150)],
    );
    let (ok, _) = verify_transaction_input(&referenced, &spender, 0);
    assert!(ok);
    let bad = Transaction::new(
        vec![TransactionInput::new(referenced.hash.clone(), 3)],
        vec![TransactionOutput::new("B".to_string(), 150)],
    );
    let (ok2, msg) = verify_transaction_input(&referenced, &bad, 0);
    assert!(!ok2);
    assert_eq!(msg, "Referenced output does not exist.");
}

#[test]
fn check_proof_of_work_is_hash_length() {
    assert_eq!(check_proof_of_work(""), 0);
    assert_eq!(check_proof_of_work("abcd"), 4);
}

#[test]
fn retarget_formula_exact_value() {
    // Intervals: genesis (index 0) is skipped; 12 - 0 = 12, 25 - 12 = 13,
    // both below the cutoff 100. Sum 25, divided by the total count 3 gives
    // 8; 8 / block_time 10 gives 0; 2 + 64 * 3 - 3 * 0 = 194.
    let blocks = vec![
        Block::new(0, 5, vec![], 0, "p".to_string()),
        Block::new(1, 12, vec![], 0, "p".to_string()),
        Block::new(2, 25, vec![], 0, "p".to_string()),
    ];
    assert_eq!(get_update_diff(64, &blocks, &cfg()), 194);
}

#[test]
fn retarget_excludes_outliers_from_sum_only() {
    // 12 - 0 = 12 counts; 200 - 12 = 188 is at or above the cutoff 100, so
    // it is excluded from the sum, yet the divisor stays the block count 2.
    // 12 / 2 = 6; 6 / 10 = 0; 2 + 1 * 3 - 0 = 5.
    let blocks = vec![
        Block::new(1, 12, vec![], 0, "p".to_string()),
        Block::new(2, 200, vec![], 0, "p".to_string()),
    ];
    assert_eq!(get_update_diff(1, &blocks, &cfg()), 5);
}

#[test]
fn retarget_empty_index_uses_block_time() {
    // No blocks: the mean defaults to block_time, so minus_diff is 1.
    // 2 + 1 * 3 - 3 * 1 = 2.
    let blocks: Vec<Block> = vec![];
    assert_eq!(get_update_diff(1, &blocks, &cfg()), 2);
}

#[test]
fn update_difficulty_holds_between_retargets() {
    // Index 3 is not a multiple of 5: the difficulty is held at the measure
    // of the previous hash, its character length.
    let b = Block::new(3, 40, vec![], 0, "abcdefgh".to_string());
    let blocks: Vec<Block> = vec![];
    assert_eq!(update_difficulty(&b, &blocks, &cfg()), 8);
}

#[test]
fn update_difficulty_retargets_on_boundary() {
    // Index 5 is a retarget boundary; previous difficulty is the previous
    // hash length 8, and with no indexed blocks the mean is block_time:
    // 2 + 8 * 3 - 3 * 1 = 23.
    let b = Block::new(5, 40, vec![], 0, "abcdefgh".to_string());
    let blocks: Vec<Block> = vec![];
    assert_eq!(update_difficulty(&b, &blocks, &cfg()), 23);
}
