pub mod balance;
pub mod block;
pub mod chain;
pub mod hashing;
pub mod laws;
pub mod registry;
pub mod snapshot;
pub mod text;
pub mod transaction;

pub use block::get_current_timestamp;
pub use block::Block;
pub use chain::Blockchain;
pub use chain::ChainError;
pub use hashing::calculate_hash;
pub use hashing::is_hash_valid;
pub use registry::NodeRegistry;
pub use transaction::Transaction;
