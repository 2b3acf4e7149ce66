use vstd::prelude::*;
use crate::balance::{credit_sum, debit_sum};
use crate::block::Block;
use crate::chain::{spec_block_link, spec_chain_valid, spec_resolve, spec_resolve_from};
use crate::hashing::{dec_chars, spec_hash_meets_difficulty};
use crate::text::{all_dec_digits, lemma_dec_chars_digits, split_char, split_char_go};
use crate::transaction::{tx_chars, TxRec};

verus! {

/// The separator does not occur in the field.
pub open spec fn field_clean(s: Seq<char>, c: char) -> bool {
    forall|i: int| 0 <= i < s.len() ==> s[i] != c
}

proof fn lemma_split_go_clean(a: Seq<char>, c: char, cur: Seq<char>)
    requires
        field_clean(a, c),
    ensures
        split_char_go(a, c, cur) == seq![cur + a],
    decreases a.len(),
{
    if a.len() == 0 {
        assert(cur + a =~= cur);
    } else {
        assert(field_clean(a.drop_first(), c));
        lemma_split_go_clean(a.drop_first(), c, cur.push(a[0]));
        assert(cur.push(a[0]) + a.drop_first() =~= cur + a);
    }
}

proof fn lemma_split_go_sep(a: Seq<char>, c: char, cur: Seq<char>, rest: Seq<char>)
    requires
        field_clean(a, c),
    ensures
        split_char_go(a + seq![c] + rest, c, cur) == seq![cur + a] + split_char_go(
            rest,
            c,
            Seq::empty(),
        ),
    decreases a.len(),
{
    let s = a + seq![c] + rest;
    if a.len() == 0 {
        assert(s[0] == c);
        assert(s.drop_first() =~= rest);
        assert(cur + a =~= cur);
    } else {
        assert(s[0] == a[0]);
        assert(a[0] != c);
        assert(field_clean(a.drop_first(), c));
        lemma_split_go_sep(a.drop_first(), c, cur.push(a[0]), rest);
        assert(s.drop_first() =~= a.drop_first() + seq![c] + rest);
        assert(cur.push(a[0]) + a.drop_first() =~= cur + a);
    }
}

/// Decimal digits never collide with the field separators.
proof fn lemma_digits_clean(s: Seq<char>)
    requires
        all_dec_digits(s),
    ensures
        field_clean(s, ';'),
        field_clean(s, '|'),
{
    assert forall|i: int| 0 <= i < s.len() implies s[i] != ';' && s[i] != '|' by {
        assert(48 <= s[i] as int <= 57);
    }
}

/// Difficulty-target law: a hash that meets a harder difficulty also
/// meets every easier one, since the required zero prefix only grows
/// with the difficulty.
pub proof fn lemma_difficulty_monotonic(h: Seq<char>, d1: nat, d2: nat)
    requires
        d1 <= d2,
        spec_hash_meets_difficulty(h, d2),
    ensures
        spec_hash_meets_difficulty(h, d1),
{
}

/// Chain-link law: in a valid chain every block records its
/// predecessor's digest and increments its predecessor's index by one.
pub proof fn lemma_chain_links(chain: Seq<Block>, i: int)
    requires
        spec_chain_valid(chain),
        1 <= i < chain.len(),
    ensures
        chain[i].previous_hash@ == chain[i - 1].hash@,
        chain[i].index == chain[i - 1].index + 1,
{
    assert(spec_block_link(chain[i - 1], chain[i]));
}

/// Proof-of-work law: in a valid chain every non-genesis block's
/// recorded hash is the digest of its own fields and carries at least
/// its recorded difficulty of leading zeros.
pub proof fn lemma_proof_of_work(chain: Seq<Block>, i: int)
    requires
        spec_chain_valid(chain),
        1 <= i < chain.len(),
    ensures
        chain[i].hash@ == chain[i].spec_hash(),
        spec_hash_meets_difficulty(chain[i].hash@, chain[i].difficulty as nat),
{
    assert(spec_block_link(chain[i - 1], chain[i]));
}

/// Tamper-detection law, index field: replacing a non-genesis block by
/// one with any other index breaks the chain.
pub proof fn lemma_tamper_index_detected(chain: Seq<Block>, i: int, b: Block)
    requires
        spec_chain_valid(chain),
        1 <= i < chain.len(),
        b.index != chain[i].index,
    ensures
        !spec_chain_valid(chain.update(i, b)),
{
    let tampered = chain.update(i, b);
    assert(spec_block_link(chain[i - 1], chain[i]));
    assert(tampered[i - 1] == chain[i - 1]);
    assert(!spec_block_link(tampered[i - 1], tampered[i]));
}

/// Tamper-detection law, predecessor-digest field: replacing a
/// non-genesis block by one recording any other predecessor digest
/// breaks the chain.
pub proof fn lemma_tamper_previous_hash_detected(chain: Seq<Block>, i: int, b: Block)
    requires
        spec_chain_valid(chain),
        1 <= i < chain.len(),
        b.previous_hash@ != chain[i].previous_hash@,
    ensures
        !spec_chain_valid(chain.update(i, b)),
{
    let tampered = chain.update(i, b);
    assert(spec_block_link(chain[i - 1], chain[i]));
    assert(tampered[i - 1] == chain[i - 1]);
    assert(!spec_block_link(tampered[i - 1], tampered[i]));
}

/// Tamper-detection law, hash field: changing a non-genesis block's
/// recorded hash while leaving its other fields alone breaks the chain.
pub proof fn lemma_tamper_hash_detected(chain: Seq<Block>, i: int, b: Block)
    requires
        spec_chain_valid(chain),
        1 <= i < chain.len(),
        b.hash@ != chain[i].hash@,
        b.index == chain[i].index,
        b.timestamp == chain[i].timestamp,
        b.data@ == chain[i].data@,
        b.previous_hash@ == chain[i].previous_hash@,
        b.nonce == chain[i].nonce,
        b.difficulty == chain[i].difficulty,
    ensures
        !spec_chain_valid(chain.update(i, b)),
{
    let tampered = chain.update(i, b);
    assert(spec_block_link(chain[i - 1], chain[i]));
    assert(tampered[i - 1] == chain[i - 1]);
    assert(b.spec_hash() == chain[i].spec_hash());
    assert(!spec_block_link(tampered[i - 1], tampered[i]));
}

/// A record that survives the payload join: fields free of the block
/// payload separator `'|'`, with a representable non-negative amount.
/// No constraint on `';'` or `':'` is needed: the codec length-prefixes
/// every text field.
pub open spec fn tx_codec_clean(t: TxRec) -> bool {
    &&& field_clean(t.sender, '|')
    &&& field_clean(t.recipient, '|')
    &&& 0 <= t.amount <= i64::MAX
    &&& t.timestamp <= u64::MAX
    &&& match t.signature {
        Some(s) => field_clean(s, '|'),
        None => true,
    }
}

proof fn lemma_clean_concat(a: Seq<char>, b: Seq<char>, c: char)
    requires
        field_clean(a, c),
        field_clean(b, c),
    ensures
        field_clean(a + b, c),
{
    assert forall|i: int| 0 <= i < (a + b).len() implies (a + b)[i] != c by {
        if i < a.len() {
            assert((a + b)[i] == a[i]);
        } else {
            assert((a + b)[i] == b[i - a.len()]);
        }
    }
}

proof fn lemma_str_tok_clean(x: Seq<char>)
    requires
        field_clean(x, '|'),
    ensures
        field_clean(crate::text::str_tok(x), '|'),
{
    lemma_dec_chars_digits(x.len());
    lemma_digits_clean(dec_chars(x.len()));
    assert(field_clean(seq![':'], '|'));
    lemma_clean_concat(dec_chars(x.len()), seq![':'], '|');
    lemma_clean_concat(dec_chars(x.len()) + seq![':'], x, '|');
}

proof fn lemma_num_tok_clean(n: nat)
    ensures
        field_clean(crate::text::num_tok(n), '|'),
{
    lemma_dec_chars_digits(n);
    lemma_digits_clean(dec_chars(n));
    assert(field_clean(seq![';'], '|'));
    lemma_clean_concat(dec_chars(n), seq![';'], '|');
}

proof fn lemma_tx_chars_clean(t: TxRec)
    requires
        tx_codec_clean(t),
    ensures
        field_clean(tx_chars(t), '|'),
{
    let t1 = crate::text::str_tok(t.sender);
    let t2 = crate::text::str_tok(t.recipient);
    let t3 = crate::text::int_tok(t.amount);
    let t4 = crate::text::num_tok(t.timestamp);
    lemma_str_tok_clean(t.sender);
    lemma_str_tok_clean(t.recipient);
    assert(t3 =~= crate::text::num_tok(t.amount as nat));
    lemma_num_tok_clean(t.amount as nat);
    lemma_num_tok_clean(t.timestamp);
    lemma_clean_concat(t1, t2, '|');
    lemma_clean_concat(t1 + t2, t3, '|');
    lemma_clean_concat(t1 + t2 + t3, t4, '|');
    match t.signature {
        None => {
            lemma_num_tok_clean(0nat);
            lemma_clean_concat(t1 + t2 + t3 + t4, crate::text::num_tok(0nat), '|');
        },
        Some(sig) => {
            lemma_num_tok_clean(1nat);
            lemma_str_tok_clean(sig);
            lemma_clean_concat(crate::text::num_tok(1nat), crate::text::str_tok(sig), '|');
            lemma_clean_concat(
                t1 + t2 + t3 + t4,
                crate::text::num_tok(1nat) + crate::text::str_tok(sig),
                '|',
            );
            assert(tx_chars(t) =~= t1 + t2 + t3 + t4 + (crate::text::num_tok(1nat)
                + crate::text::str_tok(sig)));
        },
    }
}

proof fn lemma_payload_split(frags: Seq<Seq<char>>, reward: Seq<char>)
    requires
        forall|i: int| 0 <= i < frags.len() ==> field_clean(#[trigger] frags[i], '|'),
        field_clean(reward, '|'),
    ensures
        split_char(crate::chain::pending_payload(frags, reward), '|') == frags.push(reward),
    decreases frags.len(),
{
    if frags.len() == 0 {
        lemma_split_go_clean(reward, '|', Seq::empty());
        assert(Seq::empty() + reward =~= reward);
        assert(seq![reward] =~= frags.push(reward));
    } else {
        let rest = frags.drop_first();
        assert(forall|i: int| 0 <= i < rest.len() ==> rest[i] == frags[i + 1]);
        lemma_payload_split(rest, reward);
        let tail = crate::chain::pending_payload(rest, reward);
        assert(crate::chain::pending_payload(frags, reward) == frags[0] + seq!['|'] + tail);
        lemma_split_go_sep(frags[0], '|', Seq::empty(), tail);
        assert(Seq::empty() + frags[0] =~= frags[0]);
        assert(seq![frags[0]] + rest.push(reward) =~= frags.push(reward));
    }
}

#[verifier::rlimit(100)]
#[verifier::spinoff_prover]
proof fn lemma_parsed_of_encoded(recs: Seq<TxRec>)
    requires
        forall|i: int| 0 <= i < recs.len() ==> tx_codec_clean(#[trigger] recs[i]),
    ensures
        crate::balance::parsed_txs(recs.map_values(|r: TxRec| tx_chars(r))) == recs,
    decreases recs.len(),
{
    let m = recs.map_values(|r: TxRec| tx_chars(r));
    if recs.len() == 0 {
        assert(m =~= Seq::<Seq<char>>::empty());
        assert(crate::balance::parsed_txs(m) =~= recs);
    } else {
        let rest = recs.drop_first();
        assert(forall|i: int| 0 <= i < rest.len() ==> rest[i] == recs[i + 1]);
        lemma_parsed_of_encoded(rest);
        assert(m[0] == tx_chars(recs[0]));
        crate::transaction::lemma_tx_roundtrip(recs[0]);
        assert(m.drop_first() =~= rest.map_values(|r: TxRec| tx_chars(r)));
        assert(crate::balance::parsed_txs(m) == seq![recs[0]] + crate::balance::parsed_txs(
            m.drop_first(),
        ));
        assert(seq![recs[0]] + rest =~= recs);
    }
}

/// Replay round-trip law: the payload that mining builds from a run of
/// codec-clean records plus the reward record parses back, under the
/// balance replay, to exactly those records followed by the reward.
pub proof fn lemma_mined_payload_txs(recs: Seq<TxRec>, reward: TxRec)
    requires
        forall|i: int| 0 <= i < recs.len() ==> tx_codec_clean(#[trigger] recs[i]),
        tx_codec_clean(reward),
    ensures
        crate::balance::block_txs(
            crate::chain::pending_payload(
                recs.map_values(|r: TxRec| tx_chars(r)),
                tx_chars(reward),
            ),
        ) == recs.push(reward),
{
    let frags = recs.map_values(|r: TxRec| tx_chars(r));
    assert forall|i: int| 0 <= i < frags.len() implies field_clean(#[trigger] frags[i], '|') by {
        assert(frags[i] == tx_chars(recs[i]));
        lemma_tx_chars_clean(recs[i]);
    }
    lemma_tx_chars_clean(reward);
    lemma_payload_split(frags, tx_chars(reward));
    assert(frags.push(tx_chars(reward)) =~= recs.push(reward).map_values(
        |r: TxRec| tx_chars(r),
    ));
    assert(forall|i: int|
        0 <= i < recs.push(reward).len() ==> tx_codec_clean(#[trigger] recs.push(reward)[i]));
    lemma_parsed_of_encoded(recs.push(reward));
}

/// The sum of the computed balances of a run of addresses.
pub open spec fn net_sum(txs: Seq<TxRec>, addrs: Seq<Seq<char>>) -> int
    decreases addrs.len(),
{
    if addrs.len() == 0 {
        0
    } else {
        credit_sum(txs, addrs[0]) - debit_sum(txs, addrs[0]) + net_sum(txs, addrs.drop_first())
    }
}

/// The sum of the credited amounts of a run of addresses.
pub open spec fn credit_over(txs: Seq<TxRec>, addrs: Seq<Seq<char>>) -> int
    decreases addrs.len(),
{
    if addrs.len() == 0 {
        0
    } else {
        credit_sum(txs, addrs[0]) + credit_over(txs, addrs.drop_first())
    }
}

/// The sum of the debited amounts of a run of addresses.
pub open spec fn debit_over(txs: Seq<TxRec>, addrs: Seq<Seq<char>>) -> int
    decreases addrs.len(),
{
    if addrs.len() == 0 {
        0
    } else {
        debit_sum(txs, addrs[0]) + debit_over(txs, addrs.drop_first())
    }
}

/// The total amount moved by a run of records.
pub open spec fn total_amount(txs: Seq<TxRec>) -> int
    decreases txs.len(),
{
    if txs.len() == 0 {
        0
    } else {
        txs[0].amount + total_amount(txs.drop_first())
    }
}

/// How many of the addresses equal `x`.
pub open spec fn count_eq(addrs: Seq<Seq<char>>, x: Seq<char>) -> int
    decreases addrs.len(),
{
    if addrs.len() == 0 {
        0
    } else {
        (if addrs[0] == x {
            1int
        } else {
            0int
        }) + count_eq(addrs.drop_first(), x)
    }
}

proof fn lemma_count_eq_distinct(addrs: Seq<Seq<char>>, x: Seq<char>)
    requires
        forall|p: int, q: int| 0 <= p < q < addrs.len() ==> addrs[p] != addrs[q],
        addrs.contains(x),
    ensures
        count_eq(addrs, x) == 1,
    decreases addrs.len(),
{
    if addrs[0] == x {
        lemma_count_eq_absent(addrs.drop_first(), x);
    } else {
        let k = choose|k: int| 0 <= k < addrs.len() && addrs[k] == x;
        assert(addrs.drop_first()[k - 1] == addrs[k]);
        assert(addrs.drop_first().contains(x));
        assert(forall|p: int, q: int|
            0 <= p < q < addrs.drop_first().len() ==> addrs.drop_first()[p]
                != addrs.drop_first()[q]);
        lemma_count_eq_distinct(addrs.drop_first(), x);
    }
}

proof fn lemma_count_eq_absent(addrs: Seq<Seq<char>>, x: Seq<char>)
    requires
        !addrs.contains(x),
    ensures
        count_eq(addrs, x) == 0,
    decreases addrs.len(),
{
    if addrs.len() > 0 {
        assert(addrs[0] != x);
        assert(forall|k: int|
            0 <= k < addrs.drop_first().len() ==> addrs.drop_first()[k] == addrs[k + 1]);
        lemma_count_eq_absent(addrs.drop_first(), x);
    }
}

proof fn lemma_credit_over_step(t: TxRec, rest: Seq<TxRec>, addrs: Seq<Seq<char>>)
    ensures
        credit_over(seq![t] + rest, addrs) == count_eq(addrs, t.recipient) * t.amount
            + credit_over(rest, addrs),
        debit_over(seq![t] + rest, addrs) == count_eq(addrs, t.sender) * t.amount + debit_over(
            rest,
            addrs,
        ),
    decreases addrs.len(),
{
    if addrs.len() > 0 {
        let a0 = addrs[0];
        assert((seq![t] + rest)[0] == t);
        assert((seq![t] + rest).drop_first() =~= rest);
        assert(credit_sum(seq![t] + rest, a0) == (if t.recipient == a0 {
            t.amount
        } else {
            0
        }) + credit_sum(rest, a0));
        assert(debit_sum(seq![t] + rest, a0) == (if t.sender == a0 {
            t.amount
        } else {
            0
        }) + debit_sum(rest, a0));
        lemma_credit_over_step(t, rest, addrs.drop_first());
        assert(count_eq(addrs, t.recipient) == (if a0 == t.recipient {
            1int
        } else {
            0int
        }) + count_eq(addrs.drop_first(), t.recipient));
        assert(count_eq(addrs, t.recipient) * t.amount == (if a0 == t.recipient {
            t.amount
        } else {
            0
        }) + count_eq(addrs.drop_first(), t.recipient) * t.amount) by (nonlinear_arith)
            requires
                count_eq(addrs, t.recipient) == (if a0 == t.recipient {
                    1int
                } else {
                    0int
                }) + count_eq(addrs.drop_first(), t.recipient),
        ;
        assert(count_eq(addrs, t.sender) * t.amount == (if a0 == t.sender {
            t.amount
        } else {
            0
        }) + count_eq(addrs.drop_first(), t.sender) * t.amount) by (nonlinear_arith)
            requires
                count_eq(addrs, t.sender) == (if a0 == t.sender {
                    1int
                } else {
                    0int
                }) + count_eq(addrs.drop_first(), t.sender),
        ;
    }
}

proof fn lemma_totals_over(txs: Seq<TxRec>, addrs: Seq<Seq<char>>)
    requires
        forall|p: int, q: int| 0 <= p < q < addrs.len() ==> addrs[p] != addrs[q],
        forall|i: int|
            0 <= i < txs.len() ==> addrs.contains((#[trigger] txs[i]).sender) && addrs.contains(
                txs[i].recipient,
            ),
    ensures
        credit_over(txs, addrs) == total_amount(txs),
        debit_over(txs, addrs) == total_amount(txs),
    decreases txs.len(),
{
    if txs.len() == 0 {
        assert(txs =~= Seq::<TxRec>::empty());
        lemma_sums_zero_over(addrs);
    } else {
        let t = txs[0];
        let rest = txs.drop_first();
        assert(txs =~= seq![t] + rest);
        assert(forall|i: int|
            0 <= i < rest.len() ==> rest[i] == txs[i + 1]);
        lemma_totals_over(rest, addrs);
        lemma_credit_over_step(t, rest, addrs);
        lemma_count_eq_distinct(addrs, t.recipient);
        lemma_count_eq_distinct(addrs, t.sender);
        assert(credit_over(txs, addrs) == credit_over(seq![t] + rest, addrs));
        assert(count_eq(addrs, t.recipient) * t.amount == t.amount) by (nonlinear_arith)
            requires
                count_eq(addrs, t.recipient) == 1,
        ;
        assert(count_eq(addrs, t.sender) * t.amount == t.amount) by (nonlinear_arith)
            requires
                count_eq(addrs, t.sender) == 1,
        ;
        assert(total_amount(txs) == t.amount + total_amount(rest));
    }
}

proof fn lemma_sums_zero_over(addrs: Seq<Seq<char>>)
    ensures
        credit_over(Seq::<TxRec>::empty(), addrs) == 0,
        debit_over(Seq::<TxRec>::empty(), addrs) == 0,
    decreases addrs.len(),
{
    if addrs.len() > 0 {
        lemma_sums_zero_over(addrs.drop_first());
    }
}

proof fn lemma_net_is_credit_minus_debit(txs: Seq<TxRec>, addrs: Seq<Seq<char>>)
    ensures
        net_sum(txs, addrs) == credit_over(txs, addrs) - debit_over(txs, addrs),
    decreases addrs.len(),
{
    if addrs.len() > 0 {
        lemma_net_is_credit_minus_debit(txs, addrs.drop_first());
    }
}

/// Balance-conservation law: over any run of distinct addresses that
/// covers every sender and recipient, the computed balances sum to
/// zero, since each record credits exactly what it debits.
pub proof fn lemma_balance_conservation(txs: Seq<TxRec>, addrs: Seq<Seq<char>>)
    requires
        forall|p: int, q: int| 0 <= p < q < addrs.len() ==> addrs[p] != addrs[q],
        forall|i: int|
            0 <= i < txs.len() ==> addrs.contains((#[trigger] txs[i]).sender) && addrs.contains(
                txs[i].recipient,
            ),
    ensures
        net_sum(txs, addrs) == 0,
{
    lemma_totals_over(txs, addrs);
    lemma_net_is_credit_minus_debit(txs, addrs);
}

proof fn lemma_resolve_from_props(
    chains: Seq<Seq<Block>>,
    max_len: nat,
    best: Option<int>,
    base: int,
)
    requires
        best matches Some(j) ==> j < base,
    ensures
        ({
            let res = spec_resolve_from(chains, max_len, best, base);
            &&& (res == best || (exists|i: int|
                0 <= i < chains.len() && res == Some(i + base) && spec_chain_valid(
                    #[trigger] chains[i],
                ) && chains[i].len() > max_len && (forall|k: int|
                    0 <= k < chains.len() && spec_chain_valid(#[trigger] chains[k])
                        ==> chains[k].len() <= chains[i].len())))
            &&& (res == best ==> (forall|k: int|
                0 <= k < chains.len() && spec_chain_valid(#[trigger] chains[k])
                    ==> chains[k].len() <= max_len))
        }),
    decreases chains.len(),
{
    if chains.len() == 0 {
    } else {
        let rest = chains.drop_first();
        assert(forall|k: int| 0 <= k < rest.len() ==> rest[k] == chains[k + 1]);
        if chains[0].len() > max_len && spec_chain_valid(chains[0]) {
            lemma_resolve_from_props(rest, chains[0].len(), Some(base), base + 1);
            let res = spec_resolve_from(chains, max_len, best, base);
            assert(res == spec_resolve_from(rest, chains[0].len(), Some(base), base + 1));
            if res == Some(base) {
                assert(forall|k: int|
                    0 <= k < rest.len() && spec_chain_valid(#[trigger] rest[k]) ==> rest[k].len()
                        <= chains[0].len());
                assert forall|k: int|
                    0 <= k < chains.len() && spec_chain_valid(#[trigger] chains[k]) implies chains[k].len() <= chains[0].len() by {
                    if k >= 1 {
                        assert(rest[k - 1] == chains[k]);
                        assert(spec_chain_valid(rest[k - 1]));
                        assert(rest[k - 1].len() <= chains[0].len());
                    }
                }
                assert(0 <= 0 < chains.len() && res == Some(0 + base) && spec_chain_valid(
                    chains[0],
                ) && chains[0].len() > max_len);
            } else {
                let i2 = choose|i2: int|
                    0 <= i2 < rest.len() && res == Some(i2 + (base + 1)) && spec_chain_valid(
                        #[trigger] rest[i2],
                    ) && rest[i2].len() > chains[0].len() && (forall|k: int|
                        0 <= k < rest.len() && spec_chain_valid(#[trigger] rest[k])
                            ==> rest[k].len() <= rest[i2].len());
                let i = i2 + 1;
                assert(chains[i] == rest[i2]);
                assert(0 <= i < chains.len() && res == Some(i + base) && spec_chain_valid(
                    chains[i],
                ) && chains[i].len() > max_len);
                assert forall|k: int|
                    0 <= k < chains.len() && spec_chain_valid(#[trigger] chains[k]) implies chains[k].len() <= chains[i].len() by {
                    if k >= 1 {
                        assert(rest[k - 1] == chains[k]);
                        assert(spec_chain_valid(rest[k - 1]));
                        assert(rest[k - 1].len() <= rest[i2].len());
                    }
                }
            }
        } else {
            lemma_resolve_from_props(rest, max_len, best, base + 1);
            let res = spec_resolve_from(chains, max_len, best, base);
            assert(res == spec_resolve_from(rest, max_len, best, base + 1));
            if res == best {
                assert forall|k: int|
                    0 <= k < chains.len() && spec_chain_valid(#[trigger] chains[k]) implies chains[k].len()
                    <= max_len by {
                    if k >= 1 {
                        assert(rest[k - 1] == chains[k]);
                        assert(spec_chain_valid(rest[k - 1]));
                        assert(rest[k - 1].len() <= max_len);
                    }
                }
            } else {
                let i2 = choose|i2: int|
                    0 <= i2 < rest.len() && res == Some(i2 + (base + 1)) && spec_chain_valid(
                        #[trigger] rest[i2],
                    ) && rest[i2].len() > max_len && (forall|k: int|
                        0 <= k < rest.len() && spec_chain_valid(#[trigger] rest[k])
                            ==> rest[k].len() <= rest[i2].len());
                let i = i2 + 1;
                assert(chains[i] == rest[i2]);
                assert(0 <= i < chains.len() && res == Some(i + base) && spec_chain_valid(
                    chains[i],
                ) && chains[i].len() > max_len);
                assert forall|k: int|
                    0 <= k < chains.len() && spec_chain_valid(#[trigger] chains[k]) implies chains[k].len() <= chains[i].len() by {
                    if k >= 1 {
                        assert(rest[k - 1] == chains[k]);
                        assert(spec_chain_valid(rest[k - 1]));
                        assert(rest[k - 1].len() <= rest[i2].len());
                    }
                }
            }
        }
    }
}

/// Longest-chain law: the conflict-resolution scan adopts a candidate
/// exactly when some candidate is strictly longer than the local chain
/// and validates; the adopted candidate itself validates, is strictly
/// longer than the local chain, and no valid candidate is longer than
/// it — so equal-length candidates never displace the local chain.
pub proof fn lemma_longest_chain_rule(local_len: nat, chains: Seq<Seq<Block>>)
    ensures
        (spec_resolve(local_len, chains) is Some) <==> (exists|k: int|
            0 <= k < chains.len() && (#[trigger] chains[k]).len() > local_len && spec_chain_valid(
                chains[k],
            )),
        match spec_resolve(local_len, chains) {
            Some(j) => {
                &&& 0 <= j < chains.len()
                &&& spec_chain_valid(chains[j])
                &&& chains[j].len() > local_len
                &&& (forall|k: int|
                    0 <= k < chains.len() && spec_chain_valid(#[trigger] chains[k])
                        ==> chains[k].len() <= chains[j].len())
            },
            None => true,
        },
{
    lemma_resolve_from_props(chains, local_len, None, 0);
    let res = spec_resolve(local_len, chains);
    match res {
        Some(j) => {
            let i = choose|i: int|
                0 <= i < chains.len() && res == Some(i + 0) && spec_chain_valid(
                    #[trigger] chains[i],
                ) && chains[i].len() > local_len && (forall|k: int|
                    0 <= k < chains.len() && spec_chain_valid(#[trigger] chains[k])
                        ==> chains[k].len() <= chains[i].len());
            assert(i == j);
        },
        None => {
            assert(forall|k: int|
                0 <= k < chains.len() && spec_chain_valid(#[trigger] chains[k])
                    ==> chains[k].len() <= local_len);
        },
    }
}

/// Idempotent-registration law: inserting an address into the set of
/// registered addresses twice is the same as inserting it once.
pub proof fn lemma_register_idempotent(addrs: Set<Seq<char>>, address: Seq<char>)
    ensures
        addrs.insert(address).insert(address) == addrs.insert(address),
{
    assert(addrs.insert(address).insert(address) =~= addrs.insert(address));
}

} // verus!
