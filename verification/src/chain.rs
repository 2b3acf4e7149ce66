use vstd::prelude::*;
use vstd::string::StrSliceExecFns;
use vstd::string::StringExecFns;
use crate::block::{Block, spec_no_valid_nonce};
use crate::hashing::{calculate_hash, is_hash_valid};
use crate::registry::{NodeRegistry, spec_find};
use crate::text::str_eq;
use crate::transaction::{Transaction, TxRec, encode_transaction, lemma_tx_roundtrip, parse_tx, tx_chars};

verus! {

/// The ways a ledger operation can be refused. Every kind is returned as
/// a value, never thrown.
#[derive(Clone, Copy, Debug, PartialEq, Eq, Structural)]
pub enum ChainError {
    /// The chain holds no blocks to extend.
    EmptyChain,
    /// A freshly mined block failed validation against its predecessor,
    /// or the predecessor's index admits no successor.
    InvalidBlock,
    /// A submitted transaction fails the validity predicate.
    InvalidTransaction,
    /// The whole nonce space was searched without meeting the target.
    MiningExhausted,
}

/// The ledger: the block chain itself, the pool of serialized pending
/// transactions, the chain-level configuration, and the peer table.
pub struct Blockchain {
    pub chain: Vec<Block>,
    pub pending_transactions: Vec<String>,
    pub difficulty: u32,
    pub mining_reward: i64,
    pub nodes: NodeRegistry,
}

/// How a block must relate to its predecessor: the index increases by
/// one, the predecessor's digest is recorded, and the block's own
/// proof-of-work invariant holds.
pub open spec fn spec_block_link(prev: Block, cur: Block) -> bool {
    &&& cur.index == prev.index + 1
    &&& cur.previous_hash@ == prev.hash@
    &&& cur.wf()
}

/// A chain is valid when every adjacent pair is linked; chains of at
/// most one block are vacuously valid.
pub open spec fn spec_chain_valid(chain: Seq<Block>) -> bool {
    forall|i: int| 1 <= i < chain.len() ==> spec_block_link(chain[i - 1], #[trigger] chain[i])
}

/// Checks one block against its stated predecessor.
fn check_block_link(block: &Block, previous_block: &Block) -> (r: bool)
    ensures
        r == spec_block_link(*previous_block, *block),
{
    if previous_block.index == u32::MAX || block.index != previous_block.index + 1 {
        return false;
    }
    if !str_eq(block.previous_hash.as_str(), previous_block.hash.as_str()) {
        return false;
    }
    let calculated = calculate_hash(
        block.index,
        block.previous_hash.as_str(),
        block.timestamp,
        block.data.as_str(),
        block.nonce,
        block.difficulty,
    );
    if !str_eq(block.hash.as_str(), calculated.as_str()) {
        return false;
    }
    if !is_hash_valid(block.hash.as_str(), block.difficulty) {
        return false;
    }
    true
}

/// Folds the pairwise check over a whole chain, left to right, stopping
/// at the first broken link.
pub fn validate_chain(chain: &Vec<Block>) -> (r: bool)
    ensures
        r == spec_chain_valid(chain@),
{
    if chain.len() == 0 {
        return true;
    }
    let mut i: usize = 1;
    while i < chain.len()
        invariant
            1 <= i <= chain@.len(),
            forall|j: int| 1 <= j < i ==> spec_block_link(chain@[j - 1], #[trigger] chain@[j]),
        decreases chain@.len() - i,
    {
        if !check_block_link(&chain[i], &chain[i - 1]) {
            return false;
        }
        i = i + 1;
    }
    true
}

/// Appending a block that links to the tail of a valid chain keeps the
/// chain valid.
pub proof fn lemma_chain_extend(chain: Seq<Block>, b: Block)
    requires
        spec_chain_valid(chain),
        chain.len() > 0 ==> spec_block_link(chain.last(), b),
    ensures
        spec_chain_valid(chain.push(b)),
{
    let extended = chain.push(b);
    assert forall|i: int|
        1 <= i < extended.len() implies spec_block_link(extended[i - 1], #[trigger] extended[i]) by {
        if i < chain.len() {
            assert(extended[i] == chain[i]);
            assert(extended[i - 1] == chain[i - 1]);
            assert(spec_block_link(chain[i - 1], chain[i]));
        } else {
            assert(extended[i] == b);
            assert(extended[i - 1] == chain.last());
        }
    }
}

/// The payload of a mined block: every pending serialized transaction
/// followed by `'|'`, and the serialized reward transaction last.
pub open spec fn pending_payload(pending: Seq<Seq<char>>, reward: Seq<char>) -> Seq<char>
    decreases pending.len(),
{
    if pending.len() == 0 {
        reward
    } else {
        pending[0] + seq!['|'] + pending_payload(pending.drop_first(), reward)
    }
}

/// The longest-chain fold over candidate chains, scanned left to right
/// from position `base`: a candidate replaces the current best only
/// when it is strictly longer than every earlier winner (and than the
/// local chain to begin with) and validates independently.
pub open spec fn spec_resolve_from(
    chains: Seq<Seq<Block>>,
    max_len: nat,
    best: Option<int>,
    base: int,
) -> Option<int>
    decreases chains.len(),
{
    if chains.len() == 0 {
        best
    } else if chains[0].len() > max_len && spec_chain_valid(chains[0]) {
        spec_resolve_from(chains.drop_first(), chains[0].len(), Some(base), base + 1)
    } else {
        spec_resolve_from(chains.drop_first(), max_len, best, base + 1)
    }
}

/// Which candidate, if any, the conflict-resolution scan adopts.
pub open spec fn spec_resolve(local_len: nat, chains: Seq<Seq<Block>>) -> Option<int> {
    spec_resolve_from(chains, local_len, None, 0)
}

/// The reward transaction that mining a block synthesizes.
pub open spec fn spec_reward_rec(miner: Seq<char>, reward: int, ts: nat) -> TxRec {
    TxRec {
        sender: "System"@,
        recipient: miner,
        amount: reward,
        timestamp: ts,
        signature: None,
    }
}

/// No nonce in the search space works for the block that mining would
/// have appended, for some capture of the two clock reads involved: the
/// reward transaction's stamp and the block's own.
pub open spec fn spec_mining_failed(
    index: nat,
    previous_hash: Seq<char>,
    pending: Seq<Seq<char>>,
    miner: Seq<char>,
    reward: int,
    difficulty: nat,
) -> bool {
    exists|ts: u64, ts2: u64|
        #[trigger] spec_no_valid_nonce(
            index,
            previous_hash,
            ts as nat,
            pending_payload(pending, tx_chars(spec_reward_rec(miner, reward, ts2 as nat))),
            difficulty,
        )
}

impl Blockchain {
    /// Builds a ledger with the given configuration and mines its
    /// genesis block. Returns `None` only if the genesis nonce search
    /// fails.
    pub fn new(difficulty: u32, mining_reward: i64) -> (r: Option<Blockchain>)
        ensures
            r is Some ==> {
                let bc = r->0;
                &&& bc.chain@.len() == 1
                &&& bc.chain@[0].wf()
                &&& bc.chain@[0].index == 0
                &&& bc.chain@[0].previous_hash@ == "0"@
                &&& bc.chain@[0].data@ == "Genesis Block"@
                &&& bc.chain@[0].difficulty == difficulty
                &&& bc.difficulty == difficulty
                &&& bc.mining_reward == mining_reward
                &&& bc.pending_transactions@.len() == 0
                &&& bc.nodes.spec_len() == 0
            },
            difficulty == 0 ==> r is Some,
            r is None ==> (exists|ts: u64|
                #[trigger] spec_no_valid_nonce(
                    0nat,
                    "0"@,
                    ts as nat,
                    "Genesis Block"@,
                    difficulty as nat,
                )),
    {
        let mut blockchain = Blockchain {
            chain: Vec::new(),
            pending_transactions: Vec::new(),
            difficulty,
            mining_reward,
            nodes: NodeRegistry::new(),
        };
        match blockchain.create_genesis_block() {
            Ok(()) => Some(blockchain),
            Err(_) => None,
        }
    }

    /// Mines the first block: index zero, the sentinel predecessor
    /// digest `"0"`, and the fixed genesis payload.
    pub fn create_genesis_block(&mut self) -> (r: Result<(), ChainError>)
        ensures
            r is Ok ==> {
                let g = final(self).chain@.last();
                &&& final(self).chain@ == old(self).chain@.push(g)
                &&& g.wf()
                &&& g.index == 0
                &&& g.previous_hash@ == "0"@
                &&& g.data@ == "Genesis Block"@
                &&& g.difficulty == old(self).difficulty
            },
            r is Err ==> *final(self) == *old(self) && r == Err::<(), ChainError>(
                ChainError::MiningExhausted,
            ),
            old(self).difficulty == 0 ==> r is Ok,
            r is Err ==> (exists|ts: u64|
                #[trigger] spec_no_valid_nonce(
                    0nat,
                    "0"@,
                    ts as nat,
                    "Genesis Block"@,
                    old(self).difficulty as nat,
                )),
            final(self).pending_transactions == old(self).pending_transactions,
            final(self).difficulty == old(self).difficulty,
            final(self).mining_reward == old(self).mining_reward,
            final(self).nodes == old(self).nodes,
    {
        let genesis_data = String::from_str("Genesis Block");
        let sentinel = String::from_str("0");
        let ghost data_view = genesis_data@;
        let ghost sentinel_view = sentinel@;
        let mined = Block::new(0, genesis_data, sentinel, self.difficulty);
        match mined {
            Some(genesis_block) => {
                self.chain.push(genesis_block);
                Ok(())
            },
            None => {
                proof {
                    let ts0 = choose|ts: u64|
                        #[trigger] spec_no_valid_nonce(
                            0nat,
                            sentinel_view,
                            ts as nat,
                            data_view,
                            self.difficulty as nat,
                        );
                    assert(spec_no_valid_nonce(
                        0nat,
                        "0"@,
                        ts0 as nat,
                        "Genesis Block"@,
                        old(self).difficulty as nat,
                    ));
                }
                Err(ChainError::MiningExhausted)
            },
        }
    }

    /// The tail of the chain, if any.
    pub fn get_latest_block(&self) -> (r: Option<&Block>)
        ensures
            r is Some <==> self.chain@.len() > 0,
            r is Some ==> *r->0 == self.chain@.last(),
    {
        if self.chain.len() == 0 {
            None
        } else {
            Some(&self.chain[self.chain.len() - 1])
        }
    }

    /// Checks one block against its stated predecessor: index increment,
    /// predecessor digest, recomputed digest, and the block's own
    /// difficulty target.
    pub fn is_block_valid(&self, block: &Block, previous_block: &Block) -> (r: bool)
        ensures
            r == spec_block_link(*previous_block, *block),
    {
        check_block_link(block, previous_block)
    }

    /// Checks every adjacent pair of the stored chain.
    pub fn is_chain_valid(&self) -> (r: bool)
        ensures
            r == spec_chain_valid(self.chain@),
    {
        validate_chain(&self.chain)
    }

    /// Mines a block carrying `data`, chained to the current tail, and
    /// appends it after validating it against that tail. The ledger is
    /// unchanged whenever an error is returned.
    pub fn add_block(&mut self, data: String) -> (r: Result<(), ChainError>)
        ensures
            r is Ok ==> {
                let b = final(self).chain@.last();
                &&& old(self).chain@.len() > 0
                &&& final(self).chain@ == old(self).chain@.push(b)
                &&& spec_block_link(old(self).chain@.last(), b)
                &&& b.data@ == data@
                &&& b.difficulty == old(self).difficulty
            },
            spec_chain_valid(old(self).chain@) && r is Ok ==> spec_chain_valid(
                final(self).chain@,
            ),
            r is Err ==> *final(self) == *old(self),
            r == Err::<(), ChainError>(ChainError::EmptyChain) <==> old(self).chain@.len() == 0,
            old(self).chain@.len() > 0 && old(self).chain@.last().index == u32::MAX <==> r
                == Err::<(), ChainError>(ChainError::InvalidBlock),
            r is Err ==> r == Err::<(), ChainError>(ChainError::EmptyChain) || r == Err::<
                (),
                ChainError,
            >(ChainError::InvalidBlock) || r == Err::<(), ChainError>(
                ChainError::MiningExhausted,
            ),
            r == Err::<(), ChainError>(ChainError::MiningExhausted) ==> (exists|ts: u64|
                #[trigger] spec_no_valid_nonce(
                    (old(self).chain@.last().index + 1) as nat,
                    old(self).chain@.last().hash@,
                    ts as nat,
                    data@,
                    old(self).difficulty as nat,
                )),
            final(self).pending_transactions == old(self).pending_transactions,
            final(self).difficulty == old(self).difficulty,
            final(self).mining_reward == old(self).mining_reward,
            final(self).nodes == old(self).nodes,
    {
        let n = self.chain.len();
        if n == 0 {
            return Err(ChainError::EmptyChain);
        }
        let latest_index = self.chain[n - 1].index;
        if latest_index == u32::MAX {
            return Err(ChainError::InvalidBlock);
        }
        let previous_hash = self.chain[n - 1].hash.clone();
        let ghost data_view = data@;
        let ghost prev_view = previous_hash@;
        let next_index = latest_index + 1;
        let mined = Block::new(next_index, data, previous_hash, self.difficulty);
        match mined {
            Some(new_block) => {
                if check_block_link(&new_block, &self.chain[n - 1]) {
                    proof {
                        if spec_chain_valid(self.chain@) {
                            lemma_chain_extend(self.chain@, new_block);
                        }
                    }
                    self.chain.push(new_block);
                    Ok(())
                } else {
                    Err(ChainError::InvalidBlock)
                }
            },
            None => {
                proof {
                    let ts0 = choose|ts: u64|
                        #[trigger] spec_no_valid_nonce(
                            next_index as nat,
                            prev_view,
                            ts as nat,
                            data_view,
                            self.difficulty as nat,
                        );
                    assert(spec_no_valid_nonce(
                        (old(self).chain@.last().index + 1) as nat,
                        old(self).chain@.last().hash@,
                        ts0 as nat,
                        data_view,
                        old(self).difficulty as nat,
                    ));
                }
                Err(ChainError::MiningExhausted)
            },
        }
    }

    /// Mines one block that carries every pending transaction plus a
    /// synthesized reward transaction from `"System"` to the miner,
    /// joined by `'|'`. The pool is cleared only after the block is
    /// confirmed appended: on any error the ledger, pool included, is
    /// exactly as before.
    pub fn mine_pending_transactions(&mut self, miner_address: &str) -> (r: Result<
        (),
        ChainError,
    >)
        ensures
            r is Ok ==> {
                let b = final(self).chain@.last();
                &&& old(self).chain@.len() > 0
                &&& final(self).chain@ == old(self).chain@.push(b)
                &&& spec_block_link(old(self).chain@.last(), b)
                &&& b.difficulty == old(self).difficulty
                &&& final(self).pending_transactions@.len() == 0
                &&& (spec_chain_valid(old(self).chain@) ==> spec_chain_valid(final(self).chain@))
                &&& (exists|ts: u64|
                    b.data@ == pending_payload(
                        old(self).pending_transactions@.map_values(|s: String| s@),
                        #[trigger] tx_chars(
                            spec_reward_rec(
                                miner_address@,
                                old(self).mining_reward as int,
                                ts as nat,
                            ),
                        ),
                    ))
            },
            r is Err ==> *final(self) == *old(self),
            r == Err::<(), ChainError>(ChainError::EmptyChain) <==> old(self).chain@.len() == 0,
            old(self).chain@.len() > 0 && old(self).chain@.last().index == u32::MAX <==> r
                == Err::<(), ChainError>(ChainError::InvalidBlock),
            r is Err ==> r == Err::<(), ChainError>(ChainError::EmptyChain) || r == Err::<
                (),
                ChainError,
            >(ChainError::InvalidBlock) || r == Err::<(), ChainError>(
                ChainError::MiningExhausted,
            ),
            old(self).chain@.len() > 0 && r == Err::<(), ChainError>(
                ChainError::MiningExhausted,
            ) ==> spec_mining_failed(
                (old(self).chain@.last().index + 1) as nat,
                old(self).chain@.last().hash@,
                old(self).pending_transactions@.map_values(|s: String| s@),
                miner_address@,
                old(self).mining_reward as int,
                old(self).difficulty as nat,
            ),
            final(self).difficulty == old(self).difficulty,
            final(self).mining_reward == old(self).mining_reward,
            final(self).nodes == old(self).nodes,
    {
        let reward_tx = Transaction::new(
            String::from_str("System"),
            String::from_str(miner_address),
            self.mining_reward,
        );
        let ghost ts_used = reward_tx.timestamp;
        let reward_enc = encode_transaction(&reward_tx);
        proof {
            assert(reward_tx.rec() == spec_reward_rec(
                miner_address@,
                self.mining_reward as int,
                ts_used as nat,
            ));
        }
        let ghost reward_view = reward_enc@;
        let ghost pending_views = self.pending_transactions@.map_values(|s: String| s@);
        let mut data = String::new();
        let mut i: usize = 0;
        proof {
            assert(pending_views.skip(0) =~= pending_views);
        }
        while i < self.pending_transactions.len()
            invariant
                *self == *old(self),
                0 <= i <= self.pending_transactions@.len(),
                pending_views == self.pending_transactions@.map_values(|s: String| s@),
                pending_payload(pending_views, reward_view) == data@ + pending_payload(
                    pending_views.skip(i as int),
                    reward_view,
                ),
            decreases self.pending_transactions@.len() - i,
        {
            proof {
                reveal_strlit("|");
                assert(pending_views.skip(i as int).drop_first() =~= pending_views.skip(
                    i as int + 1,
                ));
                assert(pending_views.skip(i as int)[0] == pending_views[i as int]);
            }
            let ghost data_pre = data@;
            data.append(self.pending_transactions[i].as_str());
            data.append("|");
            proof {
                assert(data@ =~= data_pre + (pending_views[i as int] + seq!['|']));
                assert(data_pre + (pending_views[i as int] + seq!['|'] + pending_payload(
                    pending_views.skip(i as int + 1),
                    reward_view,
                )) =~= data@ + pending_payload(pending_views.skip(i as int + 1), reward_view));
            }
            i = i + 1;
        }
        proof {
            assert(pending_views.skip(self.pending_transactions@.len() as int).len() == 0);
        }
        data.append(reward_enc.as_str());
        proof {
            assert(data@ =~= pending_payload(pending_views, reward_view));
        }
        let ghost payload_view = data@;
        let result = self.add_block(data);
        match result {
            Ok(()) => {
                self.pending_transactions.clear();
                Ok(())
            },
            Err(e) => {
                proof {
                    if e == ChainError::MiningExhausted {
                        let ts0 = choose|ts: u64|
                            #[trigger] spec_no_valid_nonce(
                                (old(self).chain@.last().index + 1) as nat,
                                old(self).chain@.last().hash@,
                                ts as nat,
                                payload_view,
                                old(self).difficulty as nat,
                            );
                        assert(payload_view == pending_payload(
                            pending_views,
                            tx_chars(
                                spec_reward_rec(
                                    miner_address@,
                                    old(self).mining_reward as int,
                                    ts_used as nat,
                                ),
                            ),
                        ));
                        assert(spec_no_valid_nonce(
                            (old(self).chain@.last().index + 1) as nat,
                            old(self).chain@.last().hash@,
                            ts0 as nat,
                            pending_payload(
                                pending_views,
                                tx_chars(
                                    spec_reward_rec(
                                        miner_address@,
                                        old(self).mining_reward as int,
                                        ts_used as nat,
                                    ),
                                ),
                            ),
                            old(self).difficulty as nat,
                        ));
                    }
                }
                Err(e)
            },
        }
    }

    /// Registers a peer address as active: a new address is appended, a
    /// known one has its flag forced to active, and registering an
    /// already-active address changes nothing at all.
    pub fn register_node(&mut self, address: String)
        ensures
            final(self).nodes.spec_addrs() == old(self).nodes.spec_addrs().insert(address@),
            old(self).nodes.spec_addrs().contains(address@) ==> final(self).nodes.spec_len()
                == old(self).nodes.spec_len() && final(self).nodes.entries@ == old(
                self,
            ).nodes.entries@.update(
                spec_find(old(self).nodes.entries@, address@),
                (old(self).nodes.entries@[spec_find(old(self).nodes.entries@, address@)].0, true),
            ),
            old(self).nodes.spec_addrs().contains(address@) && old(self).nodes.entries@[spec_find(
                old(self).nodes.entries@,
                address@,
            )].1 ==> *final(self) == *old(self),
            !old(self).nodes.spec_addrs().contains(address@) ==> final(self).nodes.spec_len()
                == old(self).nodes.spec_len() + 1,
            final(self).chain == old(self).chain,
            final(self).pending_transactions == old(self).pending_transactions,
            final(self).difficulty == old(self).difficulty,
            final(self).mining_reward == old(self).mining_reward,
    {
        self.nodes.register(address);
    }

    /// Longest-chain conflict resolution: adopts, wholesale, the first
    /// candidate chain attaining the greatest length among candidates
    /// that are strictly longer than the local chain and validate
    /// independently; equal-length candidates never win. Returns whether
    /// the local chain was replaced.
    pub fn resolve_conflicts(&mut self, other_chains: Vec<Vec<Block>>) -> (r: bool)
        ensures
            ({
                let views = other_chains@.map_values(|c: Vec<Block>| c@);
                let pick = spec_resolve(old(self).chain@.len() as nat, views);
                &&& r == (pick is Some)
                &&& match pick {
                    Some(j) => {
                        &&& 0 <= j < views.len()
                        &&& final(self).chain@ == views[j]
                        &&& spec_chain_valid(final(self).chain@)
                        &&& final(self).chain@.len() > old(self).chain@.len()
                    },
                    None => *final(self) == *old(self),
                }
            }),
            final(self).pending_transactions == old(self).pending_transactions,
            final(self).difficulty == old(self).difficulty,
            final(self).mining_reward == old(self).mining_reward,
            final(self).nodes == old(self).nodes,
    {
        let ghost views = other_chains@.map_values(|c: Vec<Block>| c@);
        let ghost local_len = self.chain@.len() as nat;
        let mut max_length = self.chain.len();
        let mut best: Option<usize> = None;
        let mut k: usize = 0;
        proof {
            assert(views.skip(0) =~= views);
        }
        while k < other_chains.len()
            invariant
                *self == *old(self),
                0 <= k <= other_chains@.len(),
                views == other_chains@.map_values(|c: Vec<Block>| c@),
                views.len() == other_chains@.len(),
                local_len == old(self).chain@.len(),
                spec_resolve(local_len, views) == spec_resolve_from(
                    views.skip(k as int),
                    max_length as nat,
                    match best {
                        Some(j) => Some(j as int),
                        None => None,
                    },
                    k as int,
                ),
                match best {
                    Some(j) => {
                        &&& 0 <= j < k
                        &&& spec_chain_valid(views[j as int])
                        &&& views[j as int].len() == max_length
                        &&& max_length > local_len
                    },
                    None => max_length == local_len,
                },
            decreases other_chains@.len() - k,
        {
            proof {
                assert(views.skip(k as int).drop_first() =~= views.skip(k as int + 1));
                assert(views.skip(k as int)[0] == views[k as int]);
                assert(views[k as int] == other_chains@[k as int]@);
            }
            let length = other_chains[k].len();
            if length > max_length {
                if validate_chain(&other_chains[k]) {
                    max_length = length;
                    best = Some(k);
                }
            }
            k = k + 1;
        }
        proof {
            assert(views.skip(other_chains@.len() as int).len() == 0);
        }
        let mut candidates = other_chains;
        match best {
            Some(j) => {
                let winner = candidates.swap_remove(j);
                self.chain = winner;
                true
            },
            None => false,
        }
    }

    /// Admits a transaction into the pending pool after checking the
    /// validity predicate, serializing it in the canonical form; every
    /// admitted transaction deserializes from that form unchanged.
    pub fn create_transaction(&mut self, transaction: Transaction) -> (r: Result<(), ChainError>)
        ensures
            r is Ok <==> transaction.spec_valid(),
            r is Ok ==> final(self).pending_transactions@.map_values(|s: String| s@) == old(
                self,
            ).pending_transactions@.map_values(|s: String| s@).push(tx_chars(transaction.rec())),
            r is Ok ==> parse_tx(tx_chars(transaction.rec())) == Some(transaction.rec()),
            r is Err ==> *final(self) == *old(self) && r == Err::<(), ChainError>(
                ChainError::InvalidTransaction,
            ),
            final(self).chain == old(self).chain,
            final(self).difficulty == old(self).difficulty,
            final(self).mining_reward == old(self).mining_reward,
            final(self).nodes == old(self).nodes,
    {
        if !transaction.is_valid() {
            return Err(ChainError::InvalidTransaction);
        }
        proof {
            lemma_tx_roundtrip(transaction.rec());
        }
        let encoded = encode_transaction(&transaction);
        self.pending_transactions.push(encoded);
        proof {
            assert(self.pending_transactions@.map_values(|s: String| s@) =~= old(
                self,
            ).pending_transactions@.map_values(|s: String| s@).push(tx_chars(transaction.rec())));
        }
        Ok(())
    }
}

} // verus!
