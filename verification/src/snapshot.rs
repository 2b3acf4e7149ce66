use vstd::prelude::*;
use vstd::string::StrSliceExecFns;
use vstd::string::StringExecFns;
use crate::block::Block;
use crate::chain::Blockchain;
use crate::hashing::{append_dec_u64, dec_chars};
use crate::registry::NodeRegistry;
use crate::text::{
    append_int_tok, append_num_tok, append_str_tok, dec_val, int_chars, int_tok, lemma_concat_assoc,
    lemma_parse_num_tok, lemma_parse_snum_tok, lemma_parse_str_tok, lemma_scan_exact, num_tok,
    parse_num, parse_snum, parse_str, scan_digits, str_tok, take_num, take_snum, take_str,
};

verus! {

// ------------------------------------------------------------------
// The snapshot model: what a ledger looks like as plain mathematics.
// ------------------------------------------------------------------

/// The mathematical content of one block.
pub ghost struct BlockRec {
    pub index: nat,
    pub timestamp: nat,
    pub nonce: nat,
    pub difficulty: nat,
    pub data: Seq<char>,
    pub previous_hash: Seq<char>,
    pub hash: Seq<char>,
}

/// The mathematical content of a whole ledger.
pub ghost struct LedgerRec {
    pub blocks: Seq<BlockRec>,
    pub pending: Seq<Seq<char>>,
    pub difficulty: nat,
    pub mining_reward: int,
    pub nodes: Seq<(Seq<char>, bool)>,
}

/// The record a block denotes.
pub open spec fn block_rec(b: Block) -> BlockRec {
    BlockRec {
        index: b.index as nat,
        timestamp: b.timestamp as nat,
        nonce: b.nonce as nat,
        difficulty: b.difficulty as nat,
        data: b.data@,
        previous_hash: b.previous_hash@,
        hash: b.hash@,
    }
}

/// The record a ledger denotes.
pub open spec fn ledger_rec(bc: Blockchain) -> LedgerRec {
    LedgerRec {
        blocks: bc.chain@.map_values(|b: Block| block_rec(b)),
        pending: bc.pending_transactions@.map_values(|s: String| s@),
        difficulty: bc.difficulty as nat,
        mining_reward: bc.mining_reward as int,
        nodes: bc.nodes.entries@.map_values(|e: (String, bool)| (e.0@, e.1)),
    }
}

// ------------------------------------------------------------------
// The snapshot text: a number is its decimal digits closed by ';', a
// string is its character count, ':', and the raw characters.
// ------------------------------------------------------------------

/// One block as snapshot text.
pub open spec fn block_chars(b: BlockRec) -> Seq<char> {
    num_tok(b.index) + num_tok(b.timestamp) + num_tok(b.nonce) + num_tok(b.difficulty) + str_tok(
        b.data,
    ) + str_tok(b.previous_hash) + str_tok(b.hash)
}

/// A run of blocks as snapshot text.
pub open spec fn blocks_chars(bs: Seq<BlockRec>) -> Seq<char>
    decreases bs.len(),
{
    if bs.len() == 0 {
        Seq::empty()
    } else {
        block_chars(bs[0]) + blocks_chars(bs.drop_first())
    }
}

/// A run of string tokens.
pub open spec fn strs_chars(ss: Seq<Seq<char>>) -> Seq<char>
    decreases ss.len(),
{
    if ss.len() == 0 {
        Seq::empty()
    } else {
        str_tok(ss[0]) + strs_chars(ss.drop_first())
    }
}

/// The peer table as snapshot text: an address and its flag.
pub open spec fn nodes_chars(ns: Seq<(Seq<char>, bool)>) -> Seq<char>
    decreases ns.len(),
{
    if ns.len() == 0 {
        Seq::empty()
    } else {
        str_tok(ns[0].0) + num_tok(
            if ns[0].1 {
                1nat
            } else {
                0nat
            },
        ) + nodes_chars(ns.drop_first())
    }
}

/// The whole ledger as snapshot text.
pub open spec fn snapshot_chars(m: LedgerRec) -> Seq<char> {
    num_tok(m.blocks.len()) + blocks_chars(m.blocks) + num_tok(m.pending.len()) + strs_chars(
        m.pending,
    ) + num_tok(m.difficulty) + int_tok(m.mining_reward) + num_tok(m.nodes.len()) + nodes_chars(
        m.nodes,
    )
}

// ------------------------------------------------------------------
// The parser, as mathematics: a cursor that walks the snapshot text.
// ------------------------------------------------------------------

/// Reads one block: four number tokens and three string tokens.
#[verifier::opaque]
pub open spec fn parse_block(s: Seq<char>, i: int) -> Option<(BlockRec, int)> {
    match parse_num(s, i, u32::MAX as nat) {
        None => None,
        Some((index, p1)) => match parse_num(s, p1, u64::MAX as nat) {
            None => None,
            Some((timestamp, p2)) => match parse_num(s, p2, u32::MAX as nat) {
                None => None,
                Some((nonce, p3)) => match parse_num(s, p3, u32::MAX as nat) {
                    None => None,
                    Some((difficulty, p4)) => match parse_str(s, p4) {
                        None => None,
                        Some((data, p5)) => match parse_str(s, p5) {
                            None => None,
                            Some((previous_hash, p6)) => match parse_str(s, p6) {
                                None => None,
                                Some((hash, p7)) => Some(
                                    (
                                        BlockRec {
                                            index,
                                            timestamp,
                                            nonce,
                                            difficulty,
                                            data,
                                            previous_hash,
                                            hash,
                                        },
                                        p7,
                                    ),
                                ),
                            },
                        },
                    },
                },
            },
        },
    }
}

/// Reads `count` blocks in a row.
#[verifier::opaque]
pub open spec fn parse_blocks(s: Seq<char>, i: int, count: nat) -> Option<(Seq<BlockRec>, int)>
    decreases count,
{
    if count == 0 {
        Some((Seq::empty(), i))
    } else {
        match parse_block(s, i) {
            None => None,
            Some((b, p)) => match parse_blocks(s, p, (count - 1) as nat) {
                None => None,
                Some((bs, q)) => Some((seq![b] + bs, q)),
            },
        }
    }
}

/// Reads `count` string tokens in a row.
#[verifier::opaque]
pub open spec fn parse_strs(s: Seq<char>, i: int, count: nat) -> Option<(Seq<Seq<char>>, int)>
    decreases count,
{
    if count == 0 {
        Some((Seq::empty(), i))
    } else {
        match parse_str(s, i) {
            None => None,
            Some((t, p)) => match parse_strs(s, p, (count - 1) as nat) {
                None => None,
                Some((ts, q)) => Some((seq![t] + ts, q)),
            },
        }
    }
}

/// Reads `count` peer rows: an address and a flag of zero or one.
#[verifier::opaque]
pub open spec fn parse_nodes(s: Seq<char>, i: int, count: nat) -> Option<
    (Seq<(Seq<char>, bool)>, int),
>
    decreases count,
{
    if count == 0 {
        Some((Seq::empty(), i))
    } else {
        match parse_str(s, i) {
            None => None,
            Some((addr, p)) => match parse_num(s, p, 1nat) {
                None => None,
                Some((flag, q)) => match parse_nodes(s, q, (count - 1) as nat) {
                    None => None,
                    Some((ns, r)) => Some((seq![(addr, flag == 1nat)] + ns, r)),
                },
            },
        }
    }
}

/// Reads a whole snapshot; the text must hold nothing after it.
#[verifier::opaque]
pub open spec fn parse_snapshot(s: Seq<char>) -> Option<LedgerRec> {
    match parse_num(s, 0, usize::MAX as nat) {
        None => None,
        Some((nblocks, p1)) => match parse_blocks(s, p1, nblocks) {
            None => None,
            Some((blocks, p2)) => match parse_num(s, p2, usize::MAX as nat) {
                None => None,
                Some((npending, p3)) => match parse_strs(s, p3, npending) {
                    None => None,
                    Some((pending, p4)) => match parse_num(s, p4, u32::MAX as nat) {
                        None => None,
                        Some((difficulty, p5)) => match parse_snum(s, p5) {
                            None => None,
                            Some((mining_reward, p6)) => match parse_num(s, p6, usize::MAX as nat) {
                                None => None,
                                Some((nnodes, p7)) => match parse_nodes(s, p7, nnodes) {
                                    None => None,
                                    Some((nodes, p8)) => if p8 == s.len() {
                                        Some(
                                            LedgerRec {
                                                blocks,
                                                pending,
                                                difficulty,
                                                mining_reward,
                                                nodes,
                                            },
                                        )
                                    } else {
                                        None
                                    },
                                },
                            },
                        },
                    },
                },
            },
        },
    }
}

// ------------------------------------------------------------------
// The encoder.
// ------------------------------------------------------------------

fn append_block(out: &mut String, b: &Block)
    ensures
        final(out)@ == old(out)@ + block_chars(block_rec(*b)),
{
    append_num_tok(out, b.index as u64);
    append_num_tok(out, b.timestamp);
    append_num_tok(out, b.nonce as u64);
    append_num_tok(out, b.difficulty as u64);
    append_str_tok(out, b.data.as_str());
    append_str_tok(out, b.previous_hash.as_str());
    append_str_tok(out, b.hash.as_str());
    proof {
        assert(final(out)@ =~= old(out)@ + block_chars(block_rec(*b)));
    }
}

// ------------------------------------------------------------------
// The round trip: parsing a rendered snapshot gives back the model.
// ------------------------------------------------------------------

/// Field values that the snapshot number tokens can carry.
pub open spec fn block_in_range(b: BlockRec) -> bool {
    &&& b.index <= u32::MAX
    &&& b.timestamp <= u64::MAX
    &&& b.nonce <= u32::MAX
    &&& b.difficulty <= u32::MAX
}

/// A ledger model whose counts and field values the snapshot tokens
/// can carry.
pub open spec fn ledger_in_range(m: LedgerRec) -> bool {
    &&& m.blocks.len() <= usize::MAX
    &&& forall|i: int| 0 <= i < m.blocks.len() ==> block_in_range(#[trigger] m.blocks[i])
    &&& m.pending.len() <= usize::MAX
    &&& m.difficulty <= u32::MAX
    &&& i64::MIN <= m.mining_reward <= i64::MAX
    &&& m.nodes.len() <= usize::MAX
}

#[verifier::rlimit(100)]
#[verifier::spinoff_prover]
proof fn lemma_parse_block_tok(a: Seq<char>, br: BlockRec, b: Seq<char>)
    requires
        block_in_range(br),
    ensures
        parse_block(a + block_chars(br) + b, a.len() as int) == Some(
            (br, (a.len() + block_chars(br).len()) as int),
        ),
{
    let s = a + block_chars(br) + b;
    let t1 = num_tok(br.index);
    let t2 = num_tok(br.timestamp);
    let t3 = num_tok(br.nonce);
    let t4 = num_tok(br.difficulty);
    let t5 = str_tok(br.data);
    let t6 = str_tok(br.previous_hash);
    let t7 = str_tok(br.hash);
    let u7 = t7 + b;
    let u6 = t6 + u7;
    let u5 = t5 + u6;
    let u4 = t4 + u5;
    let u3 = t3 + u4;
    let u2 = t2 + u3;
    let u1 = t1 + u2;
    let a1 = a + t1;
    let a2 = a1 + t2;
    let a3 = a2 + t3;
    let a4 = a3 + t4;
    let a5 = a4 + t5;
    let a6 = a5 + t6;
    assert(s == a + u1) by {
        assert(s =~= a + u1);
    }
    lemma_concat_assoc(a, t1, u2);
    lemma_concat_assoc(a1, t2, u3);
    lemma_concat_assoc(a2, t3, u4);
    lemma_concat_assoc(a3, t4, u5);
    lemma_concat_assoc(a4, t5, u6);
    lemma_concat_assoc(a5, t6, u7);
    let p1 = a.len() + t1.len();
    let p2 = p1 + t2.len();
    let p3 = p2 + t3.len();
    let p4 = p3 + t4.len();
    let p5 = p4 + t5.len();
    let p6 = p5 + t6.len();
    let p7 = p6 + t7.len();
    assert(parse_num(s, a.len() as int, u32::MAX as nat) == Some((br.index, p1 as int))) by {
        lemma_parse_num_tok(a, br.index, u32::MAX as nat, u2);
        assert(s == a + t1 + u2);
    }
    assert(parse_num(s, p1 as int, u64::MAX as nat) == Some((br.timestamp, p2 as int))) by {
        lemma_parse_num_tok(a1, br.timestamp, u64::MAX as nat, u3);
        assert(s == a1 + t2 + u3);
    }
    assert(parse_num(s, p2 as int, u32::MAX as nat) == Some((br.nonce, p3 as int))) by {
        lemma_parse_num_tok(a2, br.nonce, u32::MAX as nat, u4);
        assert(s == a2 + t3 + u4);
    }
    assert(parse_num(s, p3 as int, u32::MAX as nat) == Some((br.difficulty, p4 as int))) by {
        lemma_parse_num_tok(a3, br.difficulty, u32::MAX as nat, u5);
        assert(s == a3 + t4 + u5);
    }
    assert(parse_str(s, p4 as int) == Some((br.data, p5 as int))) by {
        lemma_parse_str_tok(a4, br.data, u6);
        assert(s == a4 + t5 + u6);
    }
    assert(parse_str(s, p5 as int) == Some((br.previous_hash, p6 as int))) by {
        lemma_parse_str_tok(a5, br.previous_hash, u7);
        assert(s == a5 + t6 + u7);
    }
    assert(parse_str(s, p6 as int) == Some((br.hash, p7 as int))) by {
        lemma_parse_str_tok(a6, br.hash, b);
        assert(s == a6 + t7 + b);
    }
    assert(block_chars(br).len() == t1.len() + t2.len() + t3.len() + t4.len() + t5.len()
        + t6.len() + t7.len());
    assert(parse_block(s, a.len() as int) == Some((br, (a.len() + block_chars(br).len()) as int)))
        by {
        reveal(parse_block);
    }
}

#[verifier::rlimit(100)]
#[verifier::spinoff_prover]
proof fn lemma_parse_blocks_chars(a: Seq<char>, bs: Seq<BlockRec>, b: Seq<char>)
    requires
        forall|i: int| 0 <= i < bs.len() ==> block_in_range(#[trigger] bs[i]),
    ensures
        parse_blocks(a + blocks_chars(bs) + b, a.len() as int, bs.len()) == Some(
            (bs, (a.len() + blocks_chars(bs).len()) as int),
        ),
    decreases bs.len(),
{
    reveal(parse_blocks);
    let s = a + blocks_chars(bs) + b;
    if bs.len() == 0 {
        assert(bs =~= Seq::<BlockRec>::empty());
        assert(blocks_chars(bs).len() == 0);
    } else {
        let rest = bs.drop_first();
        assert(forall|i: int| 0 <= i < rest.len() ==> rest[i] == bs[i + 1]);
        assert(s =~= a + block_chars(bs[0]) + (blocks_chars(rest) + b));
        lemma_parse_block_tok(a, bs[0], blocks_chars(rest) + b);
        let a1 = a + block_chars(bs[0]);
        assert(s =~= a1 + blocks_chars(rest) + b);
        lemma_parse_blocks_chars(a1, rest, b);
        assert(seq![bs[0]] + rest =~= bs);
    }
}

proof fn lemma_parse_strs_chars(a: Seq<char>, ss: Seq<Seq<char>>, b: Seq<char>)
    ensures
        parse_strs(a + strs_chars(ss) + b, a.len() as int, ss.len()) == Some(
            (ss, (a.len() + strs_chars(ss).len()) as int),
        ),
    decreases ss.len(),
{
    reveal(parse_strs);
    let s = a + strs_chars(ss) + b;
    if ss.len() == 0 {
        assert(ss =~= Seq::<Seq<char>>::empty());
        assert(strs_chars(ss).len() == 0);
    } else {
        let rest = ss.drop_first();
        assert(s =~= a + str_tok(ss[0]) + (strs_chars(rest) + b));
        lemma_parse_str_tok(a, ss[0], strs_chars(rest) + b);
        let a1 = a + str_tok(ss[0]);
        assert(s =~= a1 + strs_chars(rest) + b);
        lemma_parse_strs_chars(a1, rest, b);
        assert(seq![ss[0]] + rest =~= ss);
    }
}

proof fn lemma_parse_nodes_chars(a: Seq<char>, ns: Seq<(Seq<char>, bool)>, b: Seq<char>)
    ensures
        parse_nodes(a + nodes_chars(ns) + b, a.len() as int, ns.len()) == Some(
            (ns, (a.len() + nodes_chars(ns).len()) as int),
        ),
    decreases ns.len(),
{
    reveal(parse_nodes);
    let s = a + nodes_chars(ns) + b;
    if ns.len() == 0 {
        assert(ns =~= Seq::<(Seq<char>, bool)>::empty());
        assert(nodes_chars(ns).len() == 0);
    } else {
        let rest = ns.drop_first();
        let flag: nat = if ns[0].1 {
            1nat
        } else {
            0nat
        };
        assert(s =~= a + str_tok(ns[0].0) + (num_tok(flag) + nodes_chars(rest) + b));
        lemma_parse_str_tok(a, ns[0].0, num_tok(flag) + nodes_chars(rest) + b);
        let a1 = a + str_tok(ns[0].0);
        assert(s =~= a1 + num_tok(flag) + (nodes_chars(rest) + b));
        lemma_parse_num_tok(a1, flag, 1nat, nodes_chars(rest) + b);
        let a2 = a1 + num_tok(flag);
        assert(s =~= a2 + nodes_chars(rest) + b);
        lemma_parse_nodes_chars(a2, rest, b);
        assert((ns[0].0, flag == 1nat) == ns[0]);
        assert(seq![ns[0]] + rest =~= ns);
    }
}

/// Round-trip persistence law: parsing a rendered snapshot yields
/// exactly the model it was rendered from, chain, pool, configuration
/// and peer table alike.
#[verifier::rlimit(100)]
#[verifier::spinoff_prover]
pub proof fn lemma_snapshot_roundtrip(m: LedgerRec)
    requires
        ledger_in_range(m),
    ensures
        parse_snapshot(snapshot_chars(m)) == Some(m),
{
    let s = snapshot_chars(m);
    let t1 = num_tok(m.blocks.len());
    let bsec = blocks_chars(m.blocks);
    let t2 = num_tok(m.pending.len());
    let psec = strs_chars(m.pending);
    let t3 = num_tok(m.difficulty);
    let t4 = int_tok(m.mining_reward);
    let t5 = num_tok(m.nodes.len());
    let nsec = nodes_chars(m.nodes);
    let p1 = t1.len() as int;
    let p2 = p1 + bsec.len();
    let p3 = p2 + t2.len();
    let p4 = p3 + psec.len();
    let p5 = p4 + t3.len();
    let p6 = p5 + t4.len();
    let p7 = p6 + t5.len();
    let p8 = p7 + nsec.len();
    assert(parse_num(s, 0, usize::MAX as nat) == Some((m.blocks.len(), p1))) by {
        assert(s =~= Seq::empty() + t1 + (bsec + t2 + psec + t3 + t4 + t5 + nsec));
        lemma_parse_num_tok(
            Seq::empty(),
            m.blocks.len(),
            usize::MAX as nat,
            bsec + t2 + psec + t3 + t4 + t5 + nsec,
        );
    }
    assert(parse_blocks(s, p1, m.blocks.len()) == Some((m.blocks, p2))) by {
        assert(s =~= (Seq::empty() + t1) + bsec + (t2 + psec + t3 + t4 + t5 + nsec));
        lemma_parse_blocks_chars(Seq::empty() + t1, m.blocks, t2 + psec + t3 + t4 + t5 + nsec);
    }
    assert(parse_num(s, p2, usize::MAX as nat) == Some((m.pending.len(), p3))) by {
        assert(s =~= (Seq::empty() + t1 + bsec) + t2 + (psec + t3 + t4 + t5 + nsec));
        lemma_parse_num_tok(
            Seq::empty() + t1 + bsec,
            m.pending.len(),
            usize::MAX as nat,
            psec + t3 + t4 + t5 + nsec,
        );
    }
    assert(parse_strs(s, p3, m.pending.len()) == Some((m.pending, p4))) by {
        assert(s =~= (Seq::empty() + t1 + bsec + t2) + psec + (t3 + t4 + t5 + nsec));
        lemma_parse_strs_chars(Seq::empty() + t1 + bsec + t2, m.pending, t3 + t4 + t5 + nsec);
    }
    assert(parse_num(s, p4, u32::MAX as nat) == Some((m.difficulty, p5))) by {
        assert(s =~= (Seq::empty() + t1 + bsec + t2 + psec) + t3 + (t4 + t5 + nsec));
        lemma_parse_num_tok(
            Seq::empty() + t1 + bsec + t2 + psec,
            m.difficulty,
            u32::MAX as nat,
            t4 + t5 + nsec,
        );
    }
    assert(parse_snum(s, p5) == Some((m.mining_reward, p6))) by {
        assert(s =~= (Seq::empty() + t1 + bsec + t2 + psec + t3) + t4 + (t5 + nsec));
        lemma_parse_snum_tok(Seq::empty() + t1 + bsec + t2 + psec + t3, m.mining_reward, t5 + nsec);
    }
    assert(parse_num(s, p6, usize::MAX as nat) == Some((m.nodes.len(), p7))) by {
        assert(s =~= (Seq::empty() + t1 + bsec + t2 + psec + t3 + t4) + t5 + nsec);
        lemma_parse_num_tok(
            Seq::empty() + t1 + bsec + t2 + psec + t3 + t4,
            m.nodes.len(),
            usize::MAX as nat,
            nsec,
        );
    }
    assert(parse_nodes(s, p7, m.nodes.len()) == Some((m.nodes, p8))) by {
        assert(s =~= (Seq::empty() + t1 + bsec + t2 + psec + t3 + t4 + t5) + nsec
            + Seq::<char>::empty());
        lemma_parse_nodes_chars(
            Seq::empty() + t1 + bsec + t2 + psec + t3 + t4 + t5,
            m.nodes,
            Seq::empty(),
        );
    }
    assert(p8 == s.len());
    assert(parse_snapshot(s) == Some(m)) by {
        reveal(parse_snapshot);
    }
}

/// Round-trip persistence, as the ledger sees it: the snapshot of any
/// ledger parses back to that ledger's own record, so a loaded ledger
/// carries the same chain, pool, difficulty and mining reward.
pub proof fn lemma_persistence_roundtrip(bc: Blockchain)
    ensures
        parse_snapshot(snapshot_chars(ledger_rec(bc))) == Some(ledger_rec(bc)),
{
    lemma_ledger_rec_in_range(bc);
    lemma_snapshot_roundtrip(ledger_rec(bc));
}

/// Every ledger value fits the snapshot tokens as it stands.
pub proof fn lemma_ledger_rec_in_range(bc: Blockchain)
    ensures
        ledger_in_range(ledger_rec(bc)),
{
    broadcast use vstd::std_specs::vec::axiom_spec_len;

    let m = ledger_rec(bc);
    assert(bc.chain.len() == bc.chain@.len());
    assert(bc.pending_transactions.len() == bc.pending_transactions@.len());
    assert(bc.nodes.entries.len() == bc.nodes.entries@.len());
    assert forall|i: int| 0 <= i < m.blocks.len() implies block_in_range(
        #[trigger] m.blocks[i],
    ) by {
        assert(m.blocks[i] == block_rec(bc.chain@[i]));
    }
}

// ------------------------------------------------------------------
// The decoder.
// ------------------------------------------------------------------

/// Reads one block.
fn read_block(s: &str, n: usize, pos: usize) -> (r: Option<(Block, usize)>)
    requires
        n == s@.len(),
        pos <= n,
    ensures
        match r {
            Some(b_p) => parse_block(s@, pos as int) == Some((block_rec(b_p.0), b_p.1 as int))
                && pos < b_p.1 <= n,
            None => parse_block(s@, pos as int) is None,
        },
{
    proof {
        reveal(parse_block);
    }
    let (index, p1) = match take_num(s, n, pos, u32::MAX as u64) {
        Some(x) => x,
        None => {
            return None;
        },
    };
    let (timestamp, p2) = match take_num(s, n, p1, u64::MAX) {
        Some(x) => x,
        None => {
            return None;
        },
    };
    let (nonce, p3) = match take_num(s, n, p2, u32::MAX as u64) {
        Some(x) => x,
        None => {
            return None;
        },
    };
    let (difficulty, p4) = match take_num(s, n, p3, u32::MAX as u64) {
        Some(x) => x,
        None => {
            return None;
        },
    };
    let (data, p5) = match take_str(s, n, p4) {
        Some(x) => x,
        None => {
            return None;
        },
    };
    let (previous_hash, p6) = match take_str(s, n, p5) {
        Some(x) => x,
        None => {
            return None;
        },
    };
    let (hash, p7) = match take_str(s, n, p6) {
        Some(x) => x,
        None => {
            return None;
        },
    };
    let block = Block {
        index: index as u32,
        timestamp,
        nonce: nonce as u32,
        difficulty: difficulty as u32,
        data,
        previous_hash,
        hash,
    };
    Some((block, p7))
}

impl Blockchain {
    /// Reads a whole ledger back from snapshot text. Returns `None`
    /// exactly when the text is not a complete well-formed snapshot.
    #[verifier::loop_isolation(false)]
    pub fn load_from_string(s: &str) -> (r: Option<Blockchain>)
        ensures
            match r {
                Some(bc) => parse_snapshot(s@) == Some(ledger_rec(bc)),
                None => parse_snapshot(s@) is None,
            },
    {
        proof {
            reveal(parse_snapshot);
        }
        let n = s.unicode_len();
        let (nblocks, p1) = match take_num(s, n, 0, usize::MAX as u64) {
            Some(x) => x,
            None => {
                return None;
            },
        };
        let count = nblocks as usize;
        let mut chain: Vec<Block> = Vec::new();
        let mut pos: usize = p1;
        let mut k: usize = 0;
        proof {
            reveal(parse_blocks);
            assert(chain@.map_values(|b: Block| block_rec(b)) =~= Seq::<BlockRec>::empty());
        }
        while k < count
            invariant
                n == s@.len(),
                0 <= k <= count,
                pos <= n,
                ({
                    let done = chain@.map_values(|b: Block| block_rec(b));
                    parse_blocks(s@, p1 as int, count as nat) == (match parse_blocks(
                        s@,
                        pos as int,
                        (count - k) as nat,
                    ) {
                        Some((bs, q)) => Some((done + bs, q)),
                        None => None::<(Seq<BlockRec>, int)>,
                    })
                }),
            decreases count - k,
        {
            proof {
                reveal(parse_blocks);
            }
            let ghost done_pre = chain@.map_values(|b: Block| block_rec(b));
            match read_block(s, n, pos) {
                Some((b, p)) => {
                    chain.push(b);
                    proof {
                        assert(chain@.map_values(|bb: Block| block_rec(bb)) =~= done_pre.push(
                            block_rec(b),
                        ));
                        assert forall|bs: Seq<BlockRec>|
                            done_pre + (seq![block_rec(b)] + bs) =~= done_pre.push(
                                block_rec(b),
                            ) + bs by {}
                    }
                    pos = p;
                },
                None => {
                    return None;
                },
            }
            k = k + 1;
        }
        proof {
            reveal(parse_blocks);
            assert(parse_blocks(s@, pos as int, 0nat) == Some(
                (Seq::<BlockRec>::empty(), pos as int),
            ));
            assert(chain@.map_values(|b: Block| block_rec(b)) + Seq::<BlockRec>::empty()
                =~= chain@.map_values(|b: Block| block_rec(b)));
        }
        let (npending, p3) = match take_num(s, n, pos, usize::MAX as u64) {
            Some(x) => x,
            None => {
                return None;
            },
        };
        let pcount = npending as usize;
        let mut pending: Vec<String> = Vec::new();
        pos = p3;
        let mut j: usize = 0;
        proof {
            reveal(parse_strs);
            assert(pending@.map_values(|t: String| t@) =~= Seq::<Seq<char>>::empty());
        }
        while j < pcount
            invariant
                n == s@.len(),
                0 <= j <= pcount,
                pos <= n,
                ({
                    let done = pending@.map_values(|t: String| t@);
                    parse_strs(s@, p3 as int, pcount as nat) == (match parse_strs(
                        s@,
                        pos as int,
                        (pcount - j) as nat,
                    ) {
                        Some((ts, q)) => Some((done + ts, q)),
                        None => None::<(Seq<Seq<char>>, int)>,
                    })
                }),
            decreases pcount - j,
        {
            proof {
                reveal(parse_strs);
            }
            let ghost done_pre = pending@.map_values(|t: String| t@);
            match take_str(s, n, pos) {
                Some((t, p)) => {
                    let ghost tv = t@;
                    pending.push(t);
                    proof {
                        assert(pending@.map_values(|u: String| u@) =~= done_pre.push(tv));
                        assert forall|ts: Seq<Seq<char>>|
                            done_pre + (seq![tv] + ts) =~= done_pre.push(tv) + ts by {}
                    }
                    pos = p;
                },
                None => {
                    return None;
                },
            }
            j = j + 1;
        }
        proof {
            reveal(parse_strs);
            assert(parse_strs(s@, pos as int, 0nat) == Some(
                (Seq::<Seq<char>>::empty(), pos as int),
            ));
            assert(pending@.map_values(|t: String| t@) + Seq::<Seq<char>>::empty()
                =~= pending@.map_values(|t: String| t@));
        }
        let (difficulty, p5) = match take_num(s, n, pos, u32::MAX as u64) {
            Some(x) => x,
            None => {
                return None;
            },
        };
        let (mining_reward, p6) = match take_snum(s, n, p5) {
            Some(x) => x,
            None => {
                return None;
            },
        };
        let (nnodes, p7) = match take_num(s, n, p6, usize::MAX as u64) {
            Some(x) => x,
            None => {
                return None;
            },
        };
        let ncount = nnodes as usize;
        let mut entries: Vec<(String, bool)> = Vec::new();
        pos = p7;
        let mut z: usize = 0;
        proof {
            reveal(parse_nodes);
            assert(entries@.map_values(|e: (String, bool)| (e.0@, e.1)) =~= Seq::<
                (Seq<char>, bool),
            >::empty());
        }
        while z < ncount
            invariant
                n == s@.len(),
                0 <= z <= ncount,
                pos <= n,
                ({
                    let done = entries@.map_values(|e: (String, bool)| (e.0@, e.1));
                    parse_nodes(s@, p7 as int, ncount as nat) == (match parse_nodes(
                        s@,
                        pos as int,
                        (ncount - z) as nat,
                    ) {
                        Some((ns, q)) => Some((done + ns, q)),
                        None => None::<(Seq<(Seq<char>, bool)>, int)>,
                    })
                }),
            decreases ncount - z,
        {
            proof {
                reveal(parse_nodes);
            }
            let ghost done_pre = entries@.map_values(|e: (String, bool)| (e.0@, e.1));
            let (addr, pa) = match take_str(s, n, pos) {
                Some(x) => x,
                None => {
                    return None;
                },
            };
            let (flag, pf) = match take_num(s, n, pa, 1) {
                Some(x) => x,
                None => {
                    return None;
                },
            };
            let ghost av = addr@;
            let active = flag == 1;
            entries.push((addr, active));
            proof {
                assert(entries@.map_values(|e: (String, bool)| (e.0@, e.1)) =~= done_pre.push(
                    (av, active),
                ));
                assert forall|ns: Seq<(Seq<char>, bool)>|
                    done_pre + (seq![(av, active)] + ns) =~= done_pre.push((av, active))
                        + ns by {}
            }
            pos = pf;
            z = z + 1;
        }
        proof {
            reveal(parse_nodes);
            assert(parse_nodes(s@, pos as int, 0nat) == Some(
                (Seq::<(Seq<char>, bool)>::empty(), pos as int),
            ));
            assert(entries@.map_values(|e: (String, bool)| (e.0@, e.1)) + Seq::<
                (Seq<char>, bool),
            >::empty() =~= entries@.map_values(|e: (String, bool)| (e.0@, e.1)));
        }
        if pos != n {
            return None;
        }
        let bc = Blockchain {
            chain,
            pending_transactions: pending,
            difficulty: difficulty as u32,
            mining_reward,
            nodes: NodeRegistry { entries },
        };
        Some(bc)
    }

    /// Renders the whole ledger, chain, pool, configuration and peer
    /// table, as one snapshot string.
    pub fn save_to_string(&self) -> (r: String)
        ensures
            r@ == snapshot_chars(ledger_rec(*self)),
    {
        proof {
            reveal_strlit(";");
            reveal_strlit("-");
        }
        let ghost m = ledger_rec(*self);
        let mut out = String::new();
        append_num_tok(&mut out, self.chain.len() as u64);
        let mut i: usize = 0;
        proof {
            assert(m.blocks.skip(0) =~= m.blocks);
            assert(out@ + blocks_chars(m.blocks) =~= num_tok(m.blocks.len()) + blocks_chars(
                m.blocks,
            ));
        }
        let ghost mark1 = out@ + blocks_chars(m.blocks);
        while i < self.chain.len()
            invariant
                0 <= i <= self.chain@.len(),
                m == ledger_rec(*self),
                m.blocks.len() == self.chain@.len(),
                mark1 == out@ + blocks_chars(m.blocks.skip(i as int)),
            decreases self.chain@.len() - i,
        {
            proof {
                assert(m.blocks.skip(i as int).drop_first() =~= m.blocks.skip(i as int + 1));
                assert(m.blocks.skip(i as int)[0] == m.blocks[i as int]);
                assert(m.blocks[i as int] == block_rec(self.chain@[i as int]));
            }
            let ghost pre = out@;
            append_block(&mut out, &self.chain[i]);
            proof {
                assert(pre + (block_chars(m.blocks[i as int]) + blocks_chars(
                    m.blocks.skip(i as int + 1),
                )) =~= out@ + blocks_chars(m.blocks.skip(i as int + 1)));
            }
            i = i + 1;
        }
        proof {
            assert(blocks_chars(m.blocks.skip(m.blocks.len() as int)) =~= Seq::<char>::empty());
            assert(mark1 =~= out@ + Seq::<char>::empty());
            assert(mark1 =~= out@);
        }
        append_num_tok(&mut out, self.pending_transactions.len() as u64);
        let mut j: usize = 0;
        proof {
            assert(m.pending.skip(0) =~= m.pending);
        }
        let ghost mark2 = out@ + strs_chars(m.pending);
        while j < self.pending_transactions.len()
            invariant
                0 <= j <= self.pending_transactions@.len(),
                m == ledger_rec(*self),
                m.pending.len() == self.pending_transactions@.len(),
                mark2 == out@ + strs_chars(m.pending.skip(j as int)),
            decreases self.pending_transactions@.len() - j,
        {
            proof {
                assert(m.pending.skip(j as int).drop_first() =~= m.pending.skip(j as int + 1));
                assert(m.pending.skip(j as int)[0] == m.pending[j as int]);
                assert(m.pending[j as int] == self.pending_transactions@[j as int]@);
            }
            let ghost pre = out@;
            append_str_tok(&mut out, self.pending_transactions[j].as_str());
            proof {
                assert(pre + (str_tok(m.pending[j as int]) + strs_chars(
                    m.pending.skip(j as int + 1),
                )) =~= out@ + strs_chars(m.pending.skip(j as int + 1)));
            }
            j = j + 1;
        }
        proof {
            assert(strs_chars(m.pending.skip(m.pending.len() as int)) =~= Seq::<char>::empty());
            assert(mark2 =~= out@);
        }
        append_num_tok(&mut out, self.difficulty as u64);
        append_int_tok(&mut out, self.mining_reward);
        append_num_tok(&mut out, self.nodes.entries.len() as u64);
        let mut k: usize = 0;
        proof {
            assert(m.nodes.skip(0) =~= m.nodes);
        }
        let ghost mark3 = out@ + nodes_chars(m.nodes);
        while k < self.nodes.entries.len()
            invariant
                0 <= k <= self.nodes.entries@.len(),
                m == ledger_rec(*self),
                m.nodes.len() == self.nodes.entries@.len(),
                mark3 == out@ + nodes_chars(m.nodes.skip(k as int)),
            decreases self.nodes.entries@.len() - k,
        {
            proof {
                assert(m.nodes.skip(k as int).drop_first() =~= m.nodes.skip(k as int + 1));
                assert(m.nodes.skip(k as int)[0] == m.nodes[k as int]);
                assert(m.nodes[k as int].0 == self.nodes.entries@[k as int].0@);
                assert(m.nodes[k as int].1 == self.nodes.entries@[k as int].1);
            }
            let ghost pre = out@;
            append_str_tok(&mut out, self.nodes.entries[k].0.as_str());
            let flag: u64 = if self.nodes.entries[k].1 {
                1
            } else {
                0
            };
            append_num_tok(&mut out, flag);
            proof {
                assert(pre + (str_tok(m.nodes[k as int].0) + num_tok(
                    if m.nodes[k as int].1 {
                        1nat
                    } else {
                        0nat
                    },
                ) + nodes_chars(m.nodes.skip(k as int + 1))) =~= out@ + nodes_chars(
                    m.nodes.skip(k as int + 1),
                ));
            }
            k = k + 1;
        }
        proof {
            assert(nodes_chars(m.nodes.skip(m.nodes.len() as int)) =~= Seq::<char>::empty());
            assert(mark3 =~= out@);
            assert(out@ =~= snapshot_chars(m));
        }
        out
    }
}

} // verus!
