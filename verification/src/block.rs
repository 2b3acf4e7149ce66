use vstd::prelude::*;
use crate::hashing::{
    calculate_hash, is_hash_valid, spec_block_hash, spec_hash_meets_difficulty,
};

verus! {

/// One record of the ledger. A block is produced once, by mining, and is
/// never changed afterwards; every field but `hash` is an input of the
/// digest that `hash` records.
pub struct Block {
    pub index: u32,
    pub timestamp: u64,
    pub data: String,
    pub previous_hash: String,
    pub hash: String,
    pub nonce: u32,
    pub difficulty: u32,
}

/// True when `nonce` wins the nonce search for the given fields: the
/// digest over them meets the difficulty target.
pub open spec fn spec_nonce_works(
    index: nat,
    previous_hash: Seq<char>,
    timestamp: nat,
    data: Seq<char>,
    nonce: nat,
    difficulty: nat,
) -> bool {
    spec_hash_meets_difficulty(
        spec_block_hash(index, previous_hash, timestamp, data, nonce, difficulty),
        difficulty,
    )
}

/// True when no nonce in the whole `u32` search space wins for the given
/// fields and timestamp.
pub open spec fn spec_no_valid_nonce(
    index: nat,
    previous_hash: Seq<char>,
    timestamp: nat,
    data: Seq<char>,
    difficulty: nat,
) -> bool {
    forall|n: u32|
        !#[trigger] spec_nonce_works(index, previous_hash, timestamp, data, n as nat, difficulty)
}

impl Block {
    /// The digest of this block's own fields.
    pub open spec fn spec_hash(self) -> Seq<char> {
        spec_block_hash(
            self.index as nat,
            self.previous_hash@,
            self.timestamp as nat,
            self.data@,
            self.nonce as nat,
            self.difficulty as nat,
        )
    }

    /// Proof-of-work invariant: the recorded hash is the digest of the
    /// block's fields and carries at least `difficulty` leading zeros.
    pub open spec fn wf(self) -> bool {
        &&& self.hash@ == self.spec_hash()
        &&& spec_hash_meets_difficulty(self.hash@, self.difficulty as nat)
    }

    /// Mines a block: captures the current time once, then searches for a
    /// nonce, starting at zero, whose digest meets the difficulty target.
    /// The recorded nonce is the least that works for the captured
    /// timestamp; difficulty zero accepts the very first digest. Returns
    /// `None` only if no nonce in the search space works for the
    /// captured timestamp.
    pub fn new(index: u32, data: String, previous_hash: String, difficulty: u32) -> (r: Option<
        Block,
    >)
        ensures
            r is Some ==> {
                let b = r->0;
                &&& b.wf()
                &&& b.index == index
                &&& b.data@ == data@
                &&& b.previous_hash@ == previous_hash@
                &&& b.difficulty == difficulty
                &&& forall|n: u32|
                    n < b.nonce ==> !#[trigger] spec_nonce_works(
                        index as nat,
                        previous_hash@,
                        b.timestamp as nat,
                        data@,
                        n as nat,
                        difficulty as nat,
                    )
            },
            difficulty == 0 ==> r is Some,
            r is None ==> (exists|ts: u64|
                #[trigger] spec_no_valid_nonce(
                    index as nat,
                    previous_hash@,
                    ts as nat,
                    data@,
                    difficulty as nat,
                )),
    {
        let timestamp = get_current_timestamp();
        mine_block(index, data, previous_hash, timestamp, difficulty)
    }
}

/// Relies on `std::time::SystemTime::now` and `duration_since(UNIX_EPOCH)`:
/// seconds since the epoch. Nothing can be promised of the clock's value.
/// Aborts if the system clock reads earlier than the epoch; a clock
/// regression is the one condition this ledger treats as fatal.
#[verifier::external_body]
pub fn get_current_timestamp() -> u64 {
    std::time::SystemTime::now()
        .duration_since(std::time::UNIX_EPOCH)
        .expect("Time went backwards")
        .as_secs()
}

/// Brute-force nonce search for a fixed timestamp. Returns the block for
/// the least nonce whose digest meets the difficulty target, or `None`
/// when no nonce in the whole `u32` space does.
pub fn mine_block(
    index: u32,
    data: String,
    previous_hash: String,
    timestamp: u64,
    difficulty: u32,
) -> (r: Option<Block>)
    ensures
        r is Some ==> {
            let b = r->0;
            &&& b.wf()
            &&& b.index == index
            &&& b.timestamp == timestamp
            &&& b.data@ == data@
            &&& b.previous_hash@ == previous_hash@
            &&& b.difficulty == difficulty
            &&& forall|n: u32|
                n < b.nonce ==> !#[trigger] spec_nonce_works(
                    index as nat,
                    previous_hash@,
                    timestamp as nat,
                    data@,
                    n as nat,
                    difficulty as nat,
                )
        },
        r is None ==> spec_no_valid_nonce(
            index as nat,
            previous_hash@,
            timestamp as nat,
            data@,
            difficulty as nat,
        ),
        difficulty == 0 ==> r is Some,
{
    let mut nonce: u32 = 0;
    loop
        invariant
            forall|n: u32|
                n < nonce ==> !#[trigger] spec_nonce_works(
                    index as nat,
                    previous_hash@,
                    timestamp as nat,
                    data@,
                    n as nat,
                    difficulty as nat,
                ),
        decreases u32::MAX - nonce,
    {
        let hash = calculate_hash(
            index,
            previous_hash.as_str(),
            timestamp,
            data.as_str(),
            nonce,
            difficulty,
        );
        if is_hash_valid(hash.as_str(), difficulty) {
            return Some(
                Block {
                    index,
                    timestamp,
                    data,
                    previous_hash,
                    hash,
                    nonce,
                    difficulty,
                },
            );
        }
        if nonce == u32::MAX {
            proof {
                assert(spec_hash_meets_difficulty(hash@, 0));
            }
            return None;
        }
        nonce = nonce + 1;
    }
}

impl Clone for Block {
    /// A clone carries exactly the fields of the original.
    fn clone(&self) -> (r: Self)
        ensures
            r == *self,
    {
        Block {
            index: self.index,
            timestamp: self.timestamp,
            data: self.data.clone(),
            previous_hash: self.previous_hash.clone(),
            hash: self.hash.clone(),
            nonce: self.nonce,
            difficulty: self.difficulty,
        }
    }
}

} // verus!
