use vstd::prelude::*;
use vstd::string::StrSliceExecFns;
use vstd::string::StringExecFns;
use crate::block::get_current_timestamp;
use crate::text::{
    append_int_tok, append_num_tok, append_str_tok, int_tok, lemma_parse_num_tok,
    lemma_parse_str_tok, num_tok, parse_num, parse_str, str_tok, take_num, take_str,
};

verus! {

/// A value transfer between two named parties. The signature is a
/// placeholder marker: it is never cryptographically checked.
pub struct Transaction {
    pub sender: String,
    pub recipient: String,
    pub amount: i64,
    pub timestamp: u64,
    pub signature: Option<String>,
}

/// The mathematical content of a transaction.
pub ghost struct TxRec {
    pub sender: Seq<char>,
    pub recipient: Seq<char>,
    pub amount: int,
    pub timestamp: nat,
    pub signature: Option<Seq<char>>,
}

/// The placeholder marker that `sign` records.
pub open spec fn spec_signed_marker() -> Seq<char> {
    "signed"@
}

impl Transaction {
    /// The record this transaction denotes.
    pub open spec fn rec(self) -> TxRec {
        TxRec {
            sender: self.sender@,
            recipient: self.recipient@,
            amount: self.amount as int,
            timestamp: self.timestamp as nat,
            signature: match self.signature {
                Some(s) => Some(s@),
                None => None,
            },
        }
    }

    /// A transaction is valid when both parties are named and the amount
    /// is strictly positive.
    pub open spec fn spec_valid(self) -> bool {
        &&& self.sender@.len() > 0
        &&& self.recipient@.len() > 0
        &&& self.amount > 0
    }

    /// Builds an unsigned transaction stamped with the current time.
    pub fn new(sender: String, recipient: String, amount: i64) -> (r: Transaction)
        ensures
            r.sender@ == sender@,
            r.recipient@ == recipient@,
            r.amount == amount,
            r.signature is None,
    {
        Transaction {
            sender,
            recipient,
            amount,
            timestamp: get_current_timestamp(),
            signature: None,
        }
    }

    /// Records the placeholder signature marker; no real signature scheme
    /// is modelled.
    pub fn sign(&mut self, _private_key: &str)
        ensures
            final(self).sender == old(self).sender,
            final(self).recipient == old(self).recipient,
            final(self).amount == old(self).amount,
            final(self).timestamp == old(self).timestamp,
            final(self).signature matches Some(s) && s@ == spec_signed_marker(),
    {
        self.signature = Some(String::from_str("signed"));
    }

    /// Checks the validity predicate.
    pub fn is_valid(&self) -> (r: bool)
        ensures
            r == self.spec_valid(),
    {
        if self.sender.as_str().unicode_len() == 0 {
            return false;
        }
        if self.recipient.as_str().unicode_len() == 0 {
            return false;
        }
        if self.amount <= 0 {
            return false;
        }
        true
    }
}

/// The canonical serialized form of a transaction: length-prefixed
/// party names, the amount and timestamp as closed number tokens, and
/// a flagged, length-prefixed signature — so every field survives the
/// codec whatever characters it holds.
pub open spec fn tx_chars(t: TxRec) -> Seq<char> {
    str_tok(t.sender) + str_tok(t.recipient) + int_tok(t.amount) + num_tok(t.timestamp)
        + (match t.signature {
        Some(s) => num_tok(1nat) + str_tok(s),
        None => num_tok(0nat),
    })
}

/// Serializes a transaction into its canonical form.
pub fn encode_transaction(tx: &Transaction) -> (r: String)
    ensures
        r@ == tx_chars(tx.rec()),
{
    let mut s = String::new();
    append_str_tok(&mut s, tx.sender.as_str());
    append_str_tok(&mut s, tx.recipient.as_str());
    append_int_tok(&mut s, tx.amount);
    append_num_tok(&mut s, tx.timestamp);
    match &tx.signature {
        Some(sig) => {
            append_num_tok(&mut s, 1);
            append_str_tok(&mut s, sig.as_str());
        },
        None => {
            append_num_tok(&mut s, 0);
        },
    }
    proof {
        assert(s@ =~= tx_chars(tx.rec()));
    }
    s
}

/// The record denoted by one serialized fragment, if it is well formed
/// from end to end: two names, a non-negative decimal amount that fits
/// `i64`, a timestamp that fits `u64`, and a signature flag with its
/// field.
pub open spec fn parse_tx(frag: Seq<char>) -> Option<TxRec> {
    match parse_str(frag, 0) {
        None => None,
        Some((sender, p1)) => match parse_str(frag, p1) {
            None => None,
            Some((recipient, p2)) => match parse_num(frag, p2, i64::MAX as nat) {
                None => None,
                Some((amount, p3)) => match parse_num(frag, p3, u64::MAX as nat) {
                    None => None,
                    Some((timestamp, p4)) => match parse_num(frag, p4, 1nat) {
                        None => None,
                        Some((has_sig, p5)) => if has_sig == 1nat {
                            match parse_str(frag, p5) {
                                None => None,
                                Some((sig, p6)) => if p6 == frag.len() {
                                    Some(
                                        TxRec {
                                            sender,
                                            recipient,
                                            amount: amount as int,
                                            timestamp,
                                            signature: Some(sig),
                                        },
                                    )
                                } else {
                                    None
                                },
                            }
                        } else if p5 == frag.len() {
                            Some(
                                TxRec {
                                    sender,
                                    recipient,
                                    amount: amount as int,
                                    timestamp,
                                    signature: None,
                                },
                            )
                        } else {
                            None
                        },
                    },
                },
            },
        },
    }
}

/// Deserializes one fragment; fragments that are not well formed are
/// reported as `None` so that a tolerant reader can skip them.
pub fn decode_transaction(frag: &str) -> (r: Option<Transaction>)
    ensures
        r is Some <==> parse_tx(frag@) is Some,
        r is Some ==> r->0.rec() == parse_tx(frag@)->0,
{
    let n = frag.unicode_len();
    let (sender, p1) = match take_str(frag, n, 0) {
        Some(x) => x,
        None => {
            return None;
        },
    };
    let (recipient, p2) = match take_str(frag, n, p1) {
        Some(x) => x,
        None => {
            return None;
        },
    };
    let (amount, p3) = match take_num(frag, n, p2, i64::MAX as u64) {
        Some(x) => x,
        None => {
            return None;
        },
    };
    let (timestamp, p4) = match take_num(frag, n, p3, u64::MAX) {
        Some(x) => x,
        None => {
            return None;
        },
    };
    let (has_sig, p5) = match take_num(frag, n, p4, 1) {
        Some(x) => x,
        None => {
            return None;
        },
    };
    if has_sig == 1 {
        let (sig, p6) = match take_str(frag, n, p5) {
            Some(x) => x,
            None => {
                return None;
            },
        };
        if p6 != n {
            return None;
        }
        Some(
            Transaction {
                sender,
                recipient,
                amount: amount as i64,
                timestamp,
                signature: Some(sig),
            },
        )
    } else {
        if p5 != n {
            return None;
        }
        Some(
            Transaction {
                sender,
                recipient,
                amount: amount as i64,
                timestamp,
                signature: None,
            },
        )
    }
}

/// Codec round-trip law: a record with a representable non-negative
/// amount and timestamp — its party names and signature unrestricted —
/// is deserialized from its own serialization unchanged.
pub proof fn lemma_tx_roundtrip(t: TxRec)
    requires
        0 <= t.amount <= i64::MAX,
        t.timestamp <= u64::MAX,
    ensures
        parse_tx(tx_chars(t)) == Some(t),
{
    let s = tx_chars(t);
    let t1 = str_tok(t.sender);
    let t2 = str_tok(t.recipient);
    let t3 = int_tok(t.amount);
    let t4 = num_tok(t.timestamp);
    let p1 = t1.len() as int;
    let p2 = p1 + t2.len();
    let p3 = p2 + t3.len();
    let p4 = p3 + t4.len();
    assert(int_tok(t.amount) =~= num_tok(t.amount as nat));
    match t.signature {
        None => {
            let t5 = num_tok(0nat);
            let p5 = p4 + t5.len();
            assert(parse_str(s, 0) == Some((t.sender, p1))) by {
                assert(s =~= Seq::empty() + t1 + (t2 + t3 + t4 + t5));
                lemma_parse_str_tok(Seq::empty(), t.sender, t2 + t3 + t4 + t5);
            }
            assert(parse_str(s, p1) == Some((t.recipient, p2))) by {
                assert(s =~= (Seq::empty() + t1) + t2 + (t3 + t4 + t5));
                lemma_parse_str_tok(Seq::empty() + t1, t.recipient, t3 + t4 + t5);
            }
            assert(parse_num(s, p2, i64::MAX as nat) == Some((t.amount as nat, p3))) by {
                assert(s =~= (Seq::empty() + t1 + t2) + num_tok(t.amount as nat) + (t4 + t5));
                lemma_parse_num_tok(
                    Seq::empty() + t1 + t2,
                    t.amount as nat,
                    i64::MAX as nat,
                    t4 + t5,
                );
            }
            assert(parse_num(s, p3, u64::MAX as nat) == Some((t.timestamp, p4))) by {
                assert(s =~= (Seq::empty() + t1 + t2 + t3) + t4 + t5);
                lemma_parse_num_tok(Seq::empty() + t1 + t2 + t3, t.timestamp, u64::MAX as nat, t5);
            }
            assert(parse_num(s, p4, 1nat) == Some((0nat, p5))) by {
                assert(s =~= (Seq::empty() + t1 + t2 + t3 + t4) + t5 + Seq::<char>::empty());
                lemma_parse_num_tok(Seq::empty() + t1 + t2 + t3 + t4, 0nat, 1nat, Seq::empty());
            }
            assert(p5 == s.len());
        },
        Some(sig) => {
            let t5 = num_tok(1nat);
            let t6 = str_tok(sig);
            let p5 = p4 + t5.len();
            let p6 = p5 + t6.len();
            assert(parse_str(s, 0) == Some((t.sender, p1))) by {
                assert(s =~= Seq::empty() + t1 + (t2 + t3 + t4 + t5 + t6));
                lemma_parse_str_tok(Seq::empty(), t.sender, t2 + t3 + t4 + t5 + t6);
            }
            assert(parse_str(s, p1) == Some((t.recipient, p2))) by {
                assert(s =~= (Seq::empty() + t1) + t2 + (t3 + t4 + t5 + t6));
                lemma_parse_str_tok(Seq::empty() + t1, t.recipient, t3 + t4 + t5 + t6);
            }
            assert(parse_num(s, p2, i64::MAX as nat) == Some((t.amount as nat, p3))) by {
                assert(s =~= (Seq::empty() + t1 + t2) + num_tok(t.amount as nat) + (t4 + t5
                    + t6));
                lemma_parse_num_tok(
                    Seq::empty() + t1 + t2,
                    t.amount as nat,
                    i64::MAX as nat,
                    t4 + t5 + t6,
                );
            }
            assert(parse_num(s, p3, u64::MAX as nat) == Some((t.timestamp, p4))) by {
                assert(s =~= (Seq::empty() + t1 + t2 + t3) + t4 + (t5 + t6));
                lemma_parse_num_tok(
                    Seq::empty() + t1 + t2 + t3,
                    t.timestamp,
                    u64::MAX as nat,
                    t5 + t6,
                );
            }
            assert(parse_num(s, p4, 1nat) == Some((1nat, p5))) by {
                assert(s =~= (Seq::empty() + t1 + t2 + t3 + t4) + t5 + t6);
                lemma_parse_num_tok(Seq::empty() + t1 + t2 + t3 + t4, 1nat, 1nat, t6);
            }
            assert(parse_str(s, p5) == Some((sig, p6))) by {
                assert(s =~= (Seq::empty() + t1 + t2 + t3 + t4 + t5) + t6 + Seq::<char>::empty());
                lemma_parse_str_tok(Seq::empty() + t1 + t2 + t3 + t4 + t5, sig, Seq::empty());
            }
            assert(p6 == s.len());
        },
    }
}

impl Clone for Transaction {
    /// A clone carries exactly the fields of the original.
    fn clone(&self) -> (r: Self)
        ensures
            r == *self,
    {
        Transaction {
            sender: self.sender.clone(),
            recipient: self.recipient.clone(),
            amount: self.amount,
            timestamp: self.timestamp,
            signature: match &self.signature {
                Some(s) => Some(s.clone()),
                None => None,
            },
        }
    }
}

} // verus!
