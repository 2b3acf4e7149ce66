use rapid_blockchain::chain::{Blockchain, ChainError};
use rapid_blockchain::hashing::{calculate_hash, is_hash_valid};
use rapid_blockchain::transaction::{decode_transaction, encode_transaction, Transaction};

fn test_ledger() -> Blockchain {
    Blockchain::new(2, 100).unwrap()
}

#[test]
fn test_chain_link_invariant_holds() {
    let mut ledger = test_ledger();
    ledger.add_block("one".to_string()).unwrap();
    ledger.add_block("two".to_string()).unwrap();
    for i in 1..ledger.chain.len() {
        assert_eq!(ledger.chain[i].previous_hash, ledger.chain[i - 1].hash);
        assert_eq!(ledger.chain[i].index, ledger.chain[i - 1].index + 1);
    }
}

#[test]
fn test_proof_of_work_recompute() {
    let mut ledger = test_ledger();
    ledger.add_block("payload".to_string()).unwrap();
    for block in &ledger.chain {
        let recomputed = calculate_hash(
            block.index,
            &block.previous_hash,
            block.timestamp,
            &block.data,
            block.nonce,
            block.difficulty,
        );
        assert_eq!(block.hash, recomputed);
        assert!(is_hash_valid(&block.hash, block.difficulty));
        assert_eq!(block.hash.len(), 64);
    }
}

#[test]
fn test_calculate_hash_deterministic() {
    let h1 = calculate_hash(3, "abc", 1700000000, "payload", 42, 2);
    let h2 = calculate_hash(3, "abc", 1700000000, "payload", 42, 2);
    let h3 = calculate_hash(3, "abc", 1700000000, "other payload", 42, 2);
    assert_eq!(h1, h2);
    assert_ne!(h1, h3);
    assert_eq!(h1.len(), 64);
    assert!(h1.chars().all(|c| c.is_ascii_hexdigit() && !c.is_ascii_uppercase()));
}

#[test]
fn test_transaction_codec_roundtrip() {
    let tx = Transaction::new("Alice".to_string(), "Bob".to_string(), 50);
    let encoded = encode_transaction(&tx);
    let decoded = decode_transaction(&encoded).unwrap();
    assert_eq!(decoded.sender, tx.sender);
    assert_eq!(decoded.recipient, tx.recipient);
    assert_eq!(decoded.amount, tx.amount);
    assert_eq!(decoded.timestamp, tx.timestamp);
    assert!(decoded.signature.is_none());
}

#[test]
fn test_signed_transaction_codec_roundtrip() {
    let mut tx = Transaction::new("Alice".to_string(), "Bob".to_string(), 7);
    tx.sign("key-material");
    assert_eq!(tx.signature.as_deref(), Some("signed"));
    let encoded = encode_transaction(&tx);
    let decoded = decode_transaction(&encoded).unwrap();
    assert_eq!(decoded.signature.as_deref(), Some("signed"));
    assert_eq!(decoded.amount, 7);
}

#[test]
fn test_decode_malformed_fragments() {
    // Too few fields.
    assert!(decode_transaction("Alice;Bob;50").is_none());
    // Non-decimal amount.
    assert!(decode_transaction("Alice;Bob;fifty;0;").is_none());
    // Negative amount is not a valid serialized record.
    assert!(decode_transaction("Alice;Bob;-5;0;").is_none());
    // Amount too large for the ledger.
    assert!(decode_transaction("Alice;Bob;99999999999999999999;0;").is_none());
    // Empty string.
    assert!(decode_transaction("").is_none());
}

#[test]
fn test_balance_conservation_sum() {
    let mut ledger = test_ledger();
    ledger
        .create_transaction(Transaction::new("Alice".to_string(), "Bob".to_string(), 50))
        .unwrap();
    ledger
        .create_transaction(Transaction::new("Bob".to_string(), "Charlie".to_string(), 25))
        .unwrap();
    ledger.mine_pending_transactions("Miner1").unwrap();

    // Every participant counted once, the reward issuer included: the
    // balances of a closed system sum to zero.
    let participants = ["Alice", "Bob", "Charlie", "Miner1", "System"];
    let total: i128 = participants
        .iter()
        .map(|p| ledger.get_balance_of_address(p).unwrap())
        .sum();
    assert_eq!(total, 0);
}

#[test]
fn test_balance_of_stranger_is_zero() {
    let mut ledger = test_ledger();
    ledger.mine_pending_transactions("Miner1").unwrap();
    assert_eq!(ledger.get_balance_of_address("Nobody"), Some(0));
}

#[test]
fn test_consensus_equal_length_rejected() {
    let mut ledger_a = test_ledger();
    let mut ledger_b = test_ledger();
    ledger_a.add_block("a".to_string()).unwrap();
    ledger_b.add_block("b".to_string()).unwrap();

    // Candidates no longer than the local chain never win.
    let before = ledger_b.chain.clone();
    let changed = ledger_b.resolve_conflicts(vec![ledger_a.chain.clone()]);
    assert!(!changed);
    assert_eq!(ledger_b.chain.len(), before.len());
    assert_eq!(ledger_b.chain[1].hash, before[1].hash);
}

#[test]
fn test_consensus_rejects_invalid_longer_chain() {
    let mut ledger_a = test_ledger();
    let mut ledger_b = test_ledger();
    ledger_a.add_block("a1".to_string()).unwrap();
    ledger_a.add_block("a2".to_string()).unwrap();

    // Corrupt the longer candidate; it must not be adopted.
    let mut candidate = ledger_a.chain.clone();
    candidate[1].data = "forged".to_string();
    let changed = ledger_b.resolve_conflicts(vec![candidate]);
    assert!(!changed);
    assert_eq!(ledger_b.chain.len(), 1);
}

#[test]
fn test_add_block_on_empty_chain() {
    let mut ledger = test_ledger();
    ledger.chain.clear();
    let result = ledger.add_block("data".to_string());
    assert_eq!(result, Err(ChainError::EmptyChain));
}

#[test]
fn test_add_block_on_exhausted_index() {
    let mut ledger = test_ledger();
    ledger.chain[0].index = u32::MAX;
    let result = ledger.add_block("data".to_string());
    assert_eq!(result, Err(ChainError::InvalidBlock));
}

#[test]
fn test_create_transaction_rejects_invalid() {
    let mut ledger = test_ledger();
    let bad = Transaction::new("".to_string(), "Bob".to_string(), 50);
    assert_eq!(ledger.create_transaction(bad), Err(ChainError::InvalidTransaction));
    assert_eq!(ledger.pending_transactions.len(), 0);
}

#[test]
fn test_failed_mining_keeps_pool() {
    let mut ledger = test_ledger();
    ledger
        .create_transaction(Transaction::new("Alice".to_string(), "Bob".to_string(), 5))
        .unwrap();
    // Sabotage the chain so the append step must fail; the pool must
    // survive untouched.
    ledger.chain.clear();
    let result = ledger.mine_pending_transactions("Miner1");
    assert_eq!(result, Err(ChainError::EmptyChain));
    assert_eq!(ledger.pending_transactions.len(), 1);
}

#[test]
fn test_node_registry_flags() {
    let mut ledger = test_ledger();
    assert!(!ledger.nodes.contains_key("http://peer"));
    ledger.register_node("http://peer".to_string());
    assert!(ledger.nodes.contains_key("http://peer"));
    assert_eq!(ledger.nodes.len(), 1);
    ledger.register_node("http://peer".to_string());
    assert_eq!(ledger.nodes.len(), 1);
}

#[test]
fn test_genesis_difficulty_zero() {
    // Difficulty zero succeeds on the very first nonce.
    let ledger = Blockchain::new(0, 1).unwrap();
    assert_eq!(ledger.chain[0].nonce, 0);
    assert!(is_hash_valid(&ledger.chain[0].hash, 0));
}

#[test]
fn test_snapshot_roundtrip() {
    let mut ledger = test_ledger();
    ledger.add_block("Test Block 1".to_string()).unwrap();
    ledger
        .create_transaction(Transaction::new("Alice".to_string(), "Bob".to_string(), 30))
        .unwrap();
    ledger.mine_pending_transactions("Miner1").unwrap();
    ledger
        .create_transaction(Transaction::new("Bob".to_string(), "Alice".to_string(), 5))
        .unwrap();
    ledger.register_node("http://peer".to_string());

    let saved = ledger.save_to_string();
    let loaded = rapid_blockchain::chain::Blockchain::load_from_string(&saved).unwrap();

    assert_eq!(loaded.chain.len(), ledger.chain.len());
    assert_eq!(loaded.difficulty, ledger.difficulty);
    assert_eq!(loaded.mining_reward, ledger.mining_reward);
    assert_eq!(loaded.pending_transactions, ledger.pending_transactions);
    for i in 0..ledger.chain.len() {
        assert_eq!(loaded.chain[i].hash, ledger.chain[i].hash);
        assert_eq!(loaded.chain[i].data, ledger.chain[i].data);
        assert_eq!(loaded.chain[i].index, ledger.chain[i].index);
    }
    assert!(loaded.is_chain_valid());
    assert!(loaded.nodes.contains_key("http://peer"));
    assert_eq!(loaded.get_balance_of_address("Miner1"), Some(100));
}

#[test]
fn test_load_rejects_malformed_snapshot() {
    assert!(rapid_blockchain::chain::Blockchain::load_from_string("").is_none());
    assert!(rapid_blockchain::chain::Blockchain::load_from_string("not a snapshot").is_none());
    // A valid snapshot with trailing garbage is refused.
    let ledger = test_ledger();
    let mut saved = ledger.save_to_string();
    saved.push('x');
    assert!(rapid_blockchain::chain::Blockchain::load_from_string(&saved).is_none());
}

#[test]
fn test_codec_preserves_separator_names() {
    // Party names carrying the field and join characters survive the
    // length-prefixed codec.
    let tx = Transaction::new("Al;ce".to_string(), "B:o;b".to_string(), 9);
    let encoded = encode_transaction(&tx);
    let decoded = decode_transaction(&encoded).unwrap();
    assert_eq!(decoded.sender, "Al;ce");
    assert_eq!(decoded.recipient, "B:o;b");
    assert_eq!(decoded.amount, 9);
    assert_eq!(decoded.timestamp, tx.timestamp);
}

#[test]
fn test_balance_with_separator_names() {
    let mut ledger = test_ledger();
    ledger
        .create_transaction(Transaction::new("A;1".to_string(), "B;2".to_string(), 50))
        .unwrap();
    ledger.mine_pending_transactions("Miner1").unwrap();
    assert_eq!(ledger.get_balance_of_address("A;1"), Some(-50));
    assert_eq!(ledger.get_balance_of_address("B;2"), Some(50));
    assert_eq!(ledger.get_balance_of_address("Miner1"), Some(100));
}

#[test]
fn test_register_reactivates_inactive_flag() {
    // A registry row with an inactive flag can only arrive via a loaded
    // snapshot; registering the address forces the flag active again.
    let mut ledger = test_ledger();
    ledger.nodes.entries.push(("http://peer".to_string(), false));
    ledger.register_node("http://peer".to_string());
    assert_eq!(ledger.nodes.len(), 1);
    assert!(ledger.nodes.entries[0].1);
}
