use rapid_blockchain::chain::Blockchain;
use rapid_blockchain::hashing::is_hash_valid;
use rapid_blockchain::text::split_str;
use rapid_blockchain::transaction::{decode_transaction, encode_transaction, Transaction};
use std::time::SystemTime;
use std::time::Duration;

// Helper function to create a test blockchain
fn create_test_blockchain() -> Blockchain {
    Blockchain::new(2, 100).unwrap() // Lower difficulty for faster tests
}

#[test]
fn test_genesis_block_creation() {
    let blockchain = create_test_blockchain();

    // Check chain has exactly one block
    assert_eq!(blockchain.chain.len(), 1);

    // Check genesis block properties
    let genesis = &blockchain.chain[0];
    assert_eq!(genesis.index, 0);
    assert_eq!(genesis.previous_hash, "0");
    assert_eq!(genesis.data, "Genesis Block");
    assert!(is_hash_valid(&genesis.hash, genesis.difficulty));
}

#[test]
fn test_add_block() {
    let mut blockchain = create_test_blockchain();
    let initial_length = blockchain.chain.len();

    // Add a new block
    blockchain.add_block("Test Block Data".to_string()).unwrap();

    // Check chain length increased
    assert_eq!(blockchain.chain.len(), initial_length + 1);

    // Check new block properties
    let new_block = blockchain.chain.last().unwrap();
    assert_eq!(new_block.index, 1);
    assert_eq!(new_block.data, "Test Block Data");
    assert_eq!(new_block.previous_hash, blockchain.chain[0].hash);
    assert!(is_hash_valid(&new_block.hash, new_block.difficulty));
}

#[test]
fn test_block_validation() {
    let mut blockchain = create_test_blockchain();
    blockchain.add_block("Test Block".to_string()).unwrap();

    let latest_block = blockchain.get_latest_block().unwrap();
    let previous_block = &blockchain.chain[blockchain.chain.len() - 2];

    // Valid block should pass validation
    assert!(blockchain.is_block_valid(latest_block, previous_block));

    // Create an invalid block with wrong index
    let mut invalid_block = latest_block.clone();
    invalid_block.index = 999;
    assert!(!blockchain.is_block_valid(&invalid_block, previous_block));

    // Create an invalid block with wrong previous hash
    let mut invalid_block = latest_block.clone();
    invalid_block.previous_hash = "invalid_hash".to_string();
    assert!(!blockchain.is_block_valid(&invalid_block, previous_block));

    // Create an invalid block with modified data (hash won't match)
    let mut invalid_block = latest_block.clone();
    invalid_block.data = "Tampered data".to_string();
    assert!(!blockchain.is_block_valid(&invalid_block, previous_block));

    // Create an invalid block with invalid hash
    let mut invalid_block = latest_block.clone();
    invalid_block.hash = "invalid_hash".to_string();
    assert!(!blockchain.is_block_valid(&invalid_block, previous_block));
}

#[test]
fn test_chain_validation() {
    let mut blockchain = create_test_blockchain();

    // Add a few blocks
    blockchain.add_block("Block 1".to_string()).unwrap();
    blockchain.add_block("Block 2".to_string()).unwrap();
    blockchain.add_block("Block 3".to_string()).unwrap();

    // Chain should be valid
    assert!(blockchain.is_chain_valid());

    // Tamper with a block in the middle and verify chain is invalid
    blockchain.chain[2].data = "Tampered Block 2".to_string();
    assert!(!blockchain.is_chain_valid());
}

#[test]
fn test_mining_difficulty() {
    // Create blockchains with different difficulties
    let mut blockchain_easy = Blockchain::new(1, 100).unwrap();
    let mut blockchain_hard = Blockchain::new(4, 100).unwrap();

    // Track time to mine blocks
    let start_easy = SystemTime::now();
    blockchain_easy.add_block("Easy Block".to_string()).unwrap();
    let duration_easy = SystemTime::now()
        .duration_since(start_easy)
        .unwrap_or_else(|_| Duration::from_secs(0));

    let start_hard = SystemTime::now();
    blockchain_hard.add_block("Hard Block".to_string()).unwrap();
    let duration_hard = SystemTime::now()
        .duration_since(start_hard)
        .unwrap_or_else(|_| Duration::from_secs(0));

    // Check that harder difficulty took longer to mine
    assert!(duration_hard > duration_easy);

    // Check hash patterns
    let easy_block = blockchain_easy.get_latest_block().unwrap();
    let hard_block = blockchain_hard.get_latest_block().unwrap();

    assert!(easy_block.hash.starts_with("0"));
    assert!(hard_block.hash.starts_with("0000"));
}

#[test]
fn test_transactions() {
    let mut blockchain = create_test_blockchain();

    // Create transactions
    let tx1 = Transaction::new("Alice".to_string(), "Bob".to_string(), 50);

    let tx2 = Transaction::new("Bob".to_string(), "Charlie".to_string(), 25);

    // Add transactions and mine
    blockchain.create_transaction(tx1).unwrap();
    blockchain.create_transaction(tx2).unwrap();
    blockchain.mine_pending_transactions("Miner1").unwrap();

    // Check balances
    assert_eq!(blockchain.get_balance_of_address("Alice"), Some(-50));
    assert_eq!(blockchain.get_balance_of_address("Bob"), Some(25));
    assert_eq!(blockchain.get_balance_of_address("Charlie"), Some(25));
    assert_eq!(blockchain.get_balance_of_address("Miner1"), Some(100));

    // Add more transactions and mine again
    let tx3 = Transaction::new("Charlie".to_string(), "Alice".to_string(), 10);

    blockchain.create_transaction(tx3).unwrap();
    blockchain.mine_pending_transactions("Miner1").unwrap();

    // Check updated balances
    assert_eq!(blockchain.get_balance_of_address("Alice"), Some(-40));
    assert_eq!(blockchain.get_balance_of_address("Bob"), Some(25));
    assert_eq!(blockchain.get_balance_of_address("Charlie"), Some(15));
    assert_eq!(blockchain.get_balance_of_address("Miner1"), Some(200));
}

#[test]
fn test_transaction_validation() {
    // Valid transaction
    let valid_tx = Transaction::new("Alice".to_string(), "Bob".to_string(), 50);
    assert!(valid_tx.is_valid());

    // Invalid transactions
    let invalid_sender = Transaction::new("".to_string(), "Bob".to_string(), 50);
    assert!(!invalid_sender.is_valid());

    let invalid_recipient = Transaction::new("Alice".to_string(), "".to_string(), 50);
    assert!(!invalid_recipient.is_valid());

    let invalid_amount = Transaction::new("Alice".to_string(), "Bob".to_string(), -10);
    assert!(!invalid_amount.is_valid());
}

#[test]
fn test_consensus_mechanism() {
    let mut blockchain1 = create_test_blockchain();
    let mut blockchain2 = create_test_blockchain();

    // Make blockchain1 longer
    blockchain1.add_block("Block 1-1".to_string()).unwrap();
    blockchain1.add_block("Block 1-2".to_string()).unwrap();

    // Make blockchain2 with only one additional block
    blockchain2.add_block("Block 2-1".to_string()).unwrap();

    // Create a collection of chains
    let chains = vec![blockchain1.chain.clone(), blockchain2.chain.clone()];

    // Test consensus - blockchain2 should adopt the longer chain
    let changed = blockchain2.resolve_conflicts(chains);
    assert!(changed);
    assert_eq!(blockchain2.chain.len(), 3); // Genesis + 2 blocks

    // The chains should now be identical
    assert_eq!(blockchain2.chain[1].data, "Block 1-1");
    assert_eq!(blockchain2.chain[2].data, "Block 1-2");
}

#[test]
fn test_node_registration() {
    let mut blockchain = create_test_blockchain();

    // Register nodes
    blockchain.register_node("http://localhost:3001".to_string());
    blockchain.register_node("http://localhost:3002".to_string());

    // Check nodes were registered
    assert!(blockchain.nodes.contains_key("http://localhost:3001"));
    assert!(blockchain.nodes.contains_key("http://localhost:3002"));
    assert_eq!(blockchain.nodes.len(), 2);

    // Register same node again (should not duplicate)
    blockchain.register_node("http://localhost:3001".to_string());
    assert_eq!(blockchain.nodes.len(), 2);
}

#[test]
fn test_mining_empty_transactions() {
    let mut blockchain = create_test_blockchain();

    // Mine block with no pending transactions (just mining reward)
    blockchain.mine_pending_transactions("Miner1").unwrap();

    // There should be a new block with the reward transaction
    assert_eq!(blockchain.chain.len(), 2);
    assert_eq!(blockchain.get_balance_of_address("Miner1"), Some(100));

    // Pending transactions should be empty
    assert_eq!(blockchain.pending_transactions.len(), 0);
}

#[test]
fn test_malicious_balance_change() {
    let mut blockchain = create_test_blockchain();

    // Add a legitimate transaction
    let tx = Transaction::new("Alice".to_string(), "Bob".to_string(), 50);

    blockchain.create_transaction(tx).unwrap();
    blockchain.mine_pending_transactions("Miner1").unwrap();

    // Initial balance check
    assert_eq!(blockchain.get_balance_of_address("Alice"), Some(-50));
    assert_eq!(blockchain.get_balance_of_address("Bob"), Some(50));

    // Attempt to tamper with a previous block
    // This is a simulated attack where someone tries to modify transaction data
    let block_data = blockchain.chain[1].data.clone();

    // Parse transactions
    let transactions = split_str(&block_data, '|');
    let mut modified_transactions = Vec::new();

    for tx_frag in transactions {
        if let Some(mut tx) = decode_transaction(&tx_frag) {
            if tx.sender == "Alice" && tx.recipient == "Bob" {
                // Try to change the amount
                tx.amount = 1; // Change from 50 to 1
            }
            let modified = encode_transaction(&tx);
            modified_transactions.push(modified);
        } else {
            modified_transactions.push(tx_frag);
        }
    }

    // Replace block data with modified transactions
    blockchain.chain[1].data = modified_transactions.join("|");

    // The chain should no longer be valid after tampering
    assert!(!blockchain.is_chain_valid());

    // If someone tried to use this tampered chain, validation would fail
    // In a real system, other nodes would reject this chain
}

#[test]
fn test_large_blockchain() {
    let mut blockchain = create_test_blockchain();

    // Add many blocks to test performance and stability
    for i in 1..=10 {
        blockchain.add_block(format!("Test Block {}", i)).unwrap();
    }

    // Chain should still be valid
    assert!(blockchain.is_chain_valid());
    assert_eq!(blockchain.chain.len(), 11); // Genesis + 10 blocks

    // Each block should link to the previous one
    for i in 1..blockchain.chain.len() {
        assert_eq!(blockchain.chain[i].previous_hash, blockchain.chain[i - 1].hash);
    }
}
