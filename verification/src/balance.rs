use vstd::prelude::*;
use vstd::string::StrSliceExecFns;
use crate::block::Block;
use crate::chain::Blockchain;
use crate::text::{split_char, split_str, str_eq};
use crate::transaction::{decode_transaction, parse_tx, TxRec};

verus! {

/// The records denoted by a run of fragments; fragments that do not
/// parse are skipped, so one corrupt record does not blind the whole
/// replay.
pub open spec fn parsed_txs(frags: Seq<Seq<char>>) -> Seq<TxRec>
    decreases frags.len(),
{
    if frags.len() == 0 {
        Seq::empty()
    } else {
        match parse_tx(frags[0]) {
            Some(t) => seq![t] + parsed_txs(frags.drop_first()),
            None => parsed_txs(frags.drop_first()),
        }
    }
}

/// The records carried by one block's payload.
pub open spec fn block_txs(data: Seq<char>) -> Seq<TxRec> {
    parsed_txs(split_char(data, '|'))
}

/// Every record in the whole chain, in block order.
pub open spec fn chain_txs(chain: Seq<Block>) -> Seq<TxRec>
    decreases chain.len(),
{
    if chain.len() == 0 {
        Seq::empty()
    } else {
        block_txs(chain[0].data@) + chain_txs(chain.drop_first())
    }
}

/// The total amount credited to `addr`: the sum over records whose
/// recipient is `addr`.
pub open spec fn credit_sum(txs: Seq<TxRec>, addr: Seq<char>) -> int
    decreases txs.len(),
{
    if txs.len() == 0 {
        0
    } else {
        (if txs[0].recipient == addr {
            txs[0].amount
        } else {
            0
        }) + credit_sum(txs.drop_first(), addr)
    }
}

/// The total amount debited from `addr`: the sum over records whose
/// sender is `addr`.
pub open spec fn debit_sum(txs: Seq<TxRec>, addr: Seq<char>) -> int
    decreases txs.len(),
{
    if txs.len() == 0 {
        0
    } else {
        (if txs[0].sender == addr {
            txs[0].amount
        } else {
            0
        }) + debit_sum(txs.drop_first(), addr)
    }
}

/// The balance of an address: everything received minus everything
/// sent, replayed over the whole chain.
pub open spec fn spec_balance(chain: Seq<Block>, addr: Seq<char>) -> int {
    credit_sum(chain_txs(chain), addr) - debit_sum(chain_txs(chain), addr)
}

/// Every record's amount lies in the band the parser admits.
pub open spec fn txs_bounded(txs: Seq<TxRec>) -> bool {
    forall|i: int| 0 <= i < txs.len() ==> 0 <= (#[trigger] txs[i]).amount <= i64::MAX
}

pub proof fn lemma_credit_concat(a: Seq<TxRec>, b: Seq<TxRec>, addr: Seq<char>)
    ensures
        credit_sum(a + b, addr) == credit_sum(a, addr) + credit_sum(b, addr),
        debit_sum(a + b, addr) == debit_sum(a, addr) + debit_sum(b, addr),
    decreases a.len(),
{
    if a.len() == 0 {
        assert(a + b =~= b);
    } else {
        assert((a + b).drop_first() =~= a.drop_first() + b);
        assert((a + b)[0] == a[0]);
        lemma_credit_concat(a.drop_first(), b, addr);
    }
}

pub proof fn lemma_parsed_concat(a: Seq<Seq<char>>, b: Seq<Seq<char>>)
    ensures
        parsed_txs(a + b) == parsed_txs(a) + parsed_txs(b),
    decreases a.len(),
{
    if a.len() == 0 {
        assert(a + b =~= b);
        assert(parsed_txs(a) + parsed_txs(b) =~= parsed_txs(b));
    } else {
        assert((a + b).drop_first() =~= a.drop_first() + b);
        assert((a + b)[0] == a[0]);
        lemma_parsed_concat(a.drop_first(), b);
        assert(parsed_txs(a + b) =~= parsed_txs(a) + parsed_txs(b));
    }
}

pub proof fn lemma_chain_txs_concat(a: Seq<Block>, b: Seq<Block>)
    ensures
        chain_txs(a + b) == chain_txs(a) + chain_txs(b),
    decreases a.len(),
{
    if a.len() == 0 {
        assert(a + b =~= b);
        assert(chain_txs(a) + chain_txs(b) =~= chain_txs(b));
    } else {
        assert((a + b).drop_first() =~= a.drop_first() + b);
        assert((a + b)[0] == a[0]);
        lemma_chain_txs_concat(a.drop_first(), b);
        assert(chain_txs(a + b) =~= chain_txs(a) + chain_txs(b));
    }
}

pub proof fn lemma_parsed_txs_bounded(frags: Seq<Seq<char>>)
    ensures
        txs_bounded(parsed_txs(frags)),
    decreases frags.len(),
{
    if frags.len() > 0 {
        lemma_parsed_txs_bounded(frags.drop_first());
    }
}

pub proof fn lemma_chain_txs_bounded(chain: Seq<Block>)
    ensures
        txs_bounded(chain_txs(chain)),
    decreases chain.len(),
{
    if chain.len() > 0 {
        lemma_parsed_txs_bounded(split_char(chain[0].data@, '|'));
        lemma_chain_txs_bounded(chain.drop_first());
    }
}

pub proof fn lemma_sums_nonneg(txs: Seq<TxRec>, addr: Seq<char>)
    requires
        txs_bounded(txs),
    ensures
        credit_sum(txs, addr) >= 0,
        debit_sum(txs, addr) >= 0,
    decreases txs.len(),
{
    if txs.len() > 0 {
        assert(txs_bounded(txs.drop_first()));
        lemma_sums_nonneg(txs.drop_first(), addr);
    }
}

proof fn lemma_parsed_single(f: Seq<char>)
    ensures
        parsed_txs(seq![f]) == (match parse_tx(f) {
            Some(t) => seq![t],
            None => Seq::<TxRec>::empty(),
        }),
{
    reveal_with_fuel(parsed_txs, 2);
    assert(seq![f].drop_first() =~= Seq::<Seq<char>>::empty());
    match parse_tx(f) {
        Some(t) => {
            assert(parsed_txs(seq![f]) =~= seq![t]);
        },
        None => {
            assert(parsed_txs(seq![f]) =~= Seq::<TxRec>::empty());
        },
    }
}

proof fn lemma_chain_txs_single(b: Block)
    ensures
        chain_txs(seq![b]) == block_txs(b.data@),
{
    reveal_with_fuel(chain_txs, 2);
    assert(seq![b].drop_first() =~= Seq::<Block>::empty());
    assert(chain_txs(seq![b]) =~= block_txs(b.data@));
}

proof fn lemma_sums_single(t: TxRec, addr: Seq<char>)
    ensures
        credit_sum(seq![t], addr) == (if t.recipient == addr {
            t.amount
        } else {
            0
        }),
        debit_sum(seq![t], addr) == (if t.sender == addr {
            t.amount
        } else {
            0
        }),
{
    reveal_with_fuel(credit_sum, 2);
    reveal_with_fuel(debit_sum, 2);
    assert(seq![t].drop_first() =~= Seq::<TxRec>::empty());
}

/// The whole-chain sums dominate the sums over any prefix of the replay
/// that stops inside block `i` after `j` fragments.
proof fn lemma_balance_prefix_bound(chain: Seq<Block>, i: int, j: int, addr: Seq<char>)
    requires
        0 <= i < chain.len(),
        0 <= j <= split_char(chain[i].data@, '|').len(),
    ensures
        credit_sum(chain_txs(chain), addr) >= credit_sum(
            chain_txs(chain.take(i)) + parsed_txs(split_char(chain[i].data@, '|').take(j)),
            addr,
        ),
        debit_sum(chain_txs(chain), addr) >= debit_sum(
            chain_txs(chain.take(i)) + parsed_txs(split_char(chain[i].data@, '|').take(j)),
            addr,
        ),
{
    let fv = split_char(chain[i].data@, '|');
    let pre = chain.take(i);
    let rest = chain.skip(i + 1);
    assert(chain =~= pre + seq![chain[i]] + rest);
    lemma_chain_txs_concat(pre + seq![chain[i]], rest);
    lemma_chain_txs_concat(pre, seq![chain[i]]);
    lemma_chain_txs_single(chain[i]);
    assert(fv =~= fv.take(j) + fv.skip(j));
    lemma_parsed_concat(fv.take(j), fv.skip(j));
    let p1 = chain_txs(pre) + parsed_txs(fv.take(j));
    let p2 = parsed_txs(fv.skip(j));
    let p3 = chain_txs(rest);
    assert(chain_txs(chain) =~= p1 + p2 + p3);
    lemma_credit_concat(p1 + p2, p3, addr);
    lemma_credit_concat(p1, p2, addr);
    lemma_parsed_txs_bounded(fv.skip(j));
    lemma_chain_txs_bounded(rest);
    lemma_sums_nonneg(p2, addr);
    lemma_sums_nonneg(p3, addr);
}

impl Blockchain {
    /// Replays every block's payload, splitting it at `'|'`, decoding
    /// each fragment and skipping the ones that do not parse, and sums
    /// amounts received minus amounts sent for `address`. Returns `None`
    /// exactly when a running total leaves the machine range: when the
    /// credited or debited total exceeds `u128::MAX` or the balance
    /// itself falls outside `i128`.
    pub fn get_balance_of_address(&self, address: &str) -> (r: Option<i128>)
        ensures
            ({
                let c = credit_sum(chain_txs(self.chain@), address@);
                let d = debit_sum(chain_txs(self.chain@), address@);
                match r {
                    Some(v) => c <= u128::MAX && d <= u128::MAX && i128::MIN <= c - d
                        <= i128::MAX && v == c - d && v == spec_balance(self.chain@, address@),
                    None => !(c <= u128::MAX && d <= u128::MAX && i128::MIN <= c - d
                        <= i128::MAX),
                }
            }),
    {
        let mut credit: u128 = 0;
        let mut debit: u128 = 0;
        let mut i: usize = 0;
        proof {
            assert(self.chain@.take(0) =~= Seq::<Block>::empty());
            assert(chain_txs(Seq::<Block>::empty()) + parsed_txs(Seq::<Seq<char>>::empty())
                =~= Seq::<TxRec>::empty());
        }
        while i < self.chain.len()
            invariant
                0 <= i <= self.chain@.len(),
                credit == credit_sum(chain_txs(self.chain@.take(i as int)), address@),
                debit == debit_sum(chain_txs(self.chain@.take(i as int)), address@),
            decreases self.chain@.len() - i,
        {
            let frags = split_str(self.chain[i].data.as_str(), '|');
            let ghost fviews = frags@.map_values(|s: String| s@);
            let ghost base_txs = chain_txs(self.chain@.take(i as int));
            proof {
                assert(fviews.take(0) =~= Seq::<Seq<char>>::empty());
                lemma_credit_concat(base_txs, parsed_txs(fviews.take(0)), address@);
            }
            let mut j: usize = 0;
            while j < frags.len()
                invariant
                    0 <= i < self.chain@.len(),
                    0 <= j <= frags@.len(),
                    fviews == frags@.map_values(|s: String| s@),
                    fviews == split_char(self.chain@[i as int].data@, '|'),
                    base_txs == chain_txs(self.chain@.take(i as int)),
                    credit == credit_sum(base_txs + parsed_txs(fviews.take(j as int)), address@),
                    debit == debit_sum(base_txs + parsed_txs(fviews.take(j as int)), address@),
                decreases frags@.len() - j,
            {
                proof {
                    assert(fviews.take(j as int + 1) =~= fviews.take(j as int) + seq![
                        fviews[j as int],
                    ]);
                    lemma_parsed_concat(fviews.take(j as int), seq![fviews[j as int]]);
                    lemma_parsed_single(fviews[j as int]);
                    assert(fviews[j as int] == frags@[j as int]@);
                }
                let decoded = decode_transaction(frags[j].as_str());
                match decoded {
                    Some(t) => {
                        proof {
                            assert(parsed_txs(fviews.take(j as int + 1)) =~= parsed_txs(
                                fviews.take(j as int),
                            ) + seq![t.rec()]);
                            lemma_credit_concat(
                                base_txs + parsed_txs(fviews.take(j as int)),
                                seq![t.rec()],
                                address@,
                            );
                            assert((base_txs + parsed_txs(fviews.take(j as int))) + seq![
                                t.rec(),
                            ] =~= base_txs + parsed_txs(fviews.take(j as int + 1)));
                            lemma_sums_single(t.rec(), address@);
                        }
                        let amount = t.amount as u128;
                        if str_eq(t.recipient.as_str(), address) {
                            if credit > u128::MAX - amount {
                                proof {
                                    lemma_balance_prefix_bound(
                                        self.chain@,
                                        i as int,
                                        j as int + 1,
                                        address@,
                                    );
                                }
                                return None;
                            }
                            credit = credit + amount;
                        }
                        if str_eq(t.sender.as_str(), address) {
                            if debit > u128::MAX - amount {
                                proof {
                                    lemma_balance_prefix_bound(
                                        self.chain@,
                                        i as int,
                                        j as int + 1,
                                        address@,
                                    );
                                }
                                return None;
                            }
                            debit = debit + amount;
                        }
                    },
                    None => {
                        proof {
                            assert(parsed_txs(fviews.take(j as int + 1)) =~= parsed_txs(
                                fviews.take(j as int),
                            ) + Seq::<TxRec>::empty());
                            assert(parsed_txs(fviews.take(j as int + 1)) =~= parsed_txs(
                                fviews.take(j as int),
                            ));
                        }
                    },
                }
                j = j + 1;
            }
            proof {
                assert(fviews.take(frags@.len() as int) =~= fviews);
                assert(self.chain@.take(i as int + 1) =~= self.chain@.take(i as int) + seq![
                    self.chain@[i as int],
                ]);
                lemma_chain_txs_concat(self.chain@.take(i as int), seq![self.chain@[i as int]]);
                lemma_chain_txs_single(self.chain@[i as int]);
                lemma_credit_concat(
                    chain_txs(self.chain@.take(i as int)),
                    block_txs(self.chain@[i as int].data@),
                    address@,
                );
                assert(chain_txs(self.chain@.take(i as int)) + block_txs(
                    self.chain@[i as int].data@,
                ) =~= chain_txs(self.chain@.take(i as int + 1)));
            }
            i = i + 1;
        }
        proof {
            assert(self.chain@.take(self.chain@.len() as int) =~= self.chain@);
        }
        if credit >= debit {
            let diff = credit - debit;
            if diff <= i128::MAX as u128 {
                Some(diff as i128)
            } else {
                None
            }
        } else {
            let diff = debit - credit;
            if diff <= i128::MAX as u128 {
                Some((-(diff as i128)) as i128)
            } else if diff == (i128::MAX as u128) + 1 {
                Some(i128::MIN)
            } else {
                None
            }
        }
    }
}

} // verus!
