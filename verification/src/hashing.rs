use vstd::prelude::*;
use vstd::string::StrSliceExecFns;
use vstd::string::StringExecFns;
use sha2::Digest;

verus! {

/// The character for a single decimal digit.
pub open spec fn digit_char(d: nat) -> char {
    if d == 0 {
        '0'
    } else if d == 1 {
        '1'
    } else if d == 2 {
        '2'
    } else if d == 3 {
        '3'
    } else if d == 4 {
        '4'
    } else if d == 5 {
        '5'
    } else if d == 6 {
        '6'
    } else if d == 7 {
        '7'
    } else if d == 8 {
        '8'
    } else {
        '9'
    }
}

/// The canonical decimal rendering of a natural number: no sign, no
/// leading zeros (a single `'0'` for zero).
pub open spec fn dec_chars(n: nat) -> Seq<char>
    decreases n,
{
    if n < 10 {
        seq![digit_char(n)]
    } else {
        dec_chars(n / 10).push(digit_char(n % 10))
    }
}

/// The character for a single hexadecimal digit, lower case.
pub open spec fn nibble_char(d: nat) -> char {
    if d < 10 {
        digit_char(d)
    } else if d == 10 {
        'a'
    } else if d == 11 {
        'b'
    } else if d == 12 {
        'c'
    } else if d == 13 {
        'd'
    } else if d == 14 {
        'e'
    } else {
        'f'
    }
}

/// Lower-case hexadecimal rendering of a byte string, two digits per byte.
pub open spec fn hex_chars(bytes: Seq<u8>) -> Seq<char>
    decreases bytes.len(),
{
    if bytes.len() == 0 {
        Seq::empty()
    } else {
        seq![nibble_char((bytes[0] / 16) as nat), nibble_char((bytes[0] % 16) as nat)]
            + hex_chars(bytes.drop_first())
    }
}

/// What `sha2`'s SHA-256 returns on the UTF-8 bytes of a string: a value
/// that depends on the characters of the input alone.
pub uninterp spec fn sha256_of(input: Seq<char>) -> Seq<u8>;

/// Relies on `sha2::Sha256` (`Digest::digest`): the SHA-256 digest of the
/// UTF-8 bytes of `input`; always 32 bytes, and a function of `input` alone.
#[verifier::external_body]
fn sha256_digest(input: &str) -> (r: Vec<u8>)
    ensures
        r@ == sha256_of(input@),
        r@.len() == 32,
{
    sha2::Sha256::digest(input.as_bytes()).to_vec()
}

/// Appends one decimal digit character.
fn append_digit(s: &mut String, d: u8)
    requires
        d < 10,
    ensures
        final(s)@ == old(s)@ + seq![digit_char(d as nat)],
{
    match d {
        0 => {
            proof {
                reveal_strlit("0");
            }
            s.append("0");
        },
        1 => {
            proof {
                reveal_strlit("1");
            }
            s.append("1");
        },
        2 => {
            proof {
                reveal_strlit("2");
            }
            s.append("2");
        },
        3 => {
            proof {
                reveal_strlit("3");
            }
            s.append("3");
        },
        4 => {
            proof {
                reveal_strlit("4");
            }
            s.append("4");
        },
        5 => {
            proof {
                reveal_strlit("5");
            }
            s.append("5");
        },
        6 => {
            proof {
                reveal_strlit("6");
            }
            s.append("6");
        },
        7 => {
            proof {
                reveal_strlit("7");
            }
            s.append("7");
        },
        8 => {
            proof {
                reveal_strlit("8");
            }
            s.append("8");
        },
        _ => {
            proof {
                reveal_strlit("9");
            }
            s.append("9");
        },
    }
    proof {
        assert(final(s)@ =~= old(s)@ + seq![digit_char(d as nat)]);
    }
}

/// Appends the decimal rendering of `n`.
pub fn append_dec_u64(s: &mut String, n: u64)
    ensures
        final(s)@ == old(s)@ + dec_chars(n as nat),
    decreases n,
{
    if n >= 10 {
        append_dec_u64(s, n / 10);
    }
    append_digit(s, (n % 10) as u8);
    proof {
        assert(final(s)@ =~= old(s)@ + dec_chars(n as nat));
    }
}

/// Appends one byte as two lower-case hexadecimal digit characters.
fn append_hex_byte(s: &mut String, b: u8)
    ensures
        final(s)@ == old(s)@ + seq![
            nibble_char((b / 16) as nat),
            nibble_char((b % 16) as nat),
        ],
{
    let hi = b / 16;
    let lo = b % 16;
    if hi < 10 {
        append_digit(s, hi);
    } else {
        append_letter_nibble(s, hi);
    }
    if lo < 10 {
        append_digit(s, lo);
    } else {
        append_letter_nibble(s, lo);
    }
    proof {
        assert(final(s)@ =~= old(s)@ + seq![
            nibble_char((b / 16) as nat),
            nibble_char((b % 16) as nat),
        ]);
    }
}

/// Appends one hexadecimal digit in the range `'a'..='f'`.
fn append_letter_nibble(s: &mut String, d: u8)
    requires
        10 <= d < 16,
    ensures
        final(s)@ == old(s)@ + seq![nibble_char(d as nat)],
{
    match d {
        10 => {
            proof {
                reveal_strlit("a");
            }
            s.append("a");
        },
        11 => {
            proof {
                reveal_strlit("b");
            }
            s.append("b");
        },
        12 => {
            proof {
                reveal_strlit("c");
            }
            s.append("c");
        },
        13 => {
            proof {
                reveal_strlit("d");
            }
            s.append("d");
        },
        14 => {
            proof {
                reveal_strlit("e");
            }
            s.append("e");
        },
        _ => {
            proof {
                reveal_strlit("f");
            }
            s.append("f");
        },
    }
    proof {
        assert(final(s)@ =~= old(s)@ + seq![nibble_char(d as nat)]);
    }
}

proof fn lemma_hex_chars_push(bytes: Seq<u8>, b: u8)
    ensures
        hex_chars(bytes.push(b)) == hex_chars(bytes) + seq![
            nibble_char((b / 16) as nat),
            nibble_char((b % 16) as nat),
        ],
    decreases bytes.len(),
{
    reveal_with_fuel(hex_chars, 3);
    if bytes.len() == 0 {
        assert(bytes.push(b).drop_first() =~= Seq::<u8>::empty());
        assert(hex_chars(bytes.push(b)) =~= hex_chars(bytes) + seq![
            nibble_char((b / 16) as nat),
            nibble_char((b % 16) as nat),
        ]);
    } else {
        assert(bytes.push(b).drop_first() =~= bytes.drop_first().push(b));
        lemma_hex_chars_push(bytes.drop_first(), b);
        assert(bytes.push(b)[0] == bytes[0]);
        assert(hex_chars(bytes.push(b)) == seq![
            nibble_char((bytes[0] / 16) as nat),
            nibble_char((bytes[0] % 16) as nat),
        ] + (hex_chars(bytes.drop_first()) + seq![
            nibble_char((b / 16) as nat),
            nibble_char((b % 16) as nat),
        ]));
        assert(hex_chars(bytes.push(b)) =~= hex_chars(bytes) + seq![
            nibble_char((b / 16) as nat),
            nibble_char((b % 16) as nat),
        ]);
    }
}

/// Renders a byte string as lower-case hexadecimal.
pub fn to_hex(bytes: &Vec<u8>) -> (r: String)
    ensures
        r@ == hex_chars(bytes@),
{
    let mut s = String::new();
    let mut i: usize = 0;
    while i < bytes.len()
        invariant
            i <= bytes@.len(),
            s@ == hex_chars(bytes@.take(i as int)),
        decreases bytes@.len() - i,
    {
        proof {
            lemma_hex_chars_push(bytes@.take(i as int), bytes@[i as int]);
            assert(bytes@.take(i as int).push(bytes@[i as int]) =~= bytes@.take(i + 1));
        }
        append_hex_byte(&mut s, bytes[i]);
        i = i + 1;
    }
    proof {
        assert(bytes@.take(bytes@.len() as int) =~= bytes@);
    }
    s
}

/// The exact string hashed for a block: the decimal fields and the two
/// string fields concatenated in a fixed order with no separators.
pub open spec fn hash_input(
    index: nat,
    previous_hash: Seq<char>,
    timestamp: nat,
    data: Seq<char>,
    nonce: nat,
    difficulty: nat,
) -> Seq<char> {
    dec_chars(index) + previous_hash + dec_chars(timestamp) + data + dec_chars(nonce)
        + dec_chars(difficulty)
}

/// The recorded digest of a block: SHA-256 over the canonical field
/// string, rendered as 64 lower-case hexadecimal characters.
pub open spec fn spec_block_hash(
    index: nat,
    previous_hash: Seq<char>,
    timestamp: nat,
    data: Seq<char>,
    nonce: nat,
    difficulty: nat,
) -> Seq<char> {
    hex_chars(sha256_of(hash_input(index, previous_hash, timestamp, data, nonce, difficulty)))
}

/// A lower-case hexadecimal digit character.
pub open spec fn is_lower_hex_digit(c: char) -> bool {
    48 <= c as int <= 57 || 97 <= c as int <= 102
}

/// Hexadecimal rendering yields two lower-case hex digits per byte.
pub proof fn lemma_hex_chars_props(bytes: Seq<u8>)
    ensures
        hex_chars(bytes).len() == 2 * bytes.len(),
        forall|i: int|
            0 <= i < hex_chars(bytes).len() ==> is_lower_hex_digit(#[trigger] hex_chars(bytes)[i]),
    decreases bytes.len(),
{
    if bytes.len() > 0 {
        lemma_hex_chars_props(bytes.drop_first());
        assert forall|i: int|
            0 <= i < hex_chars(bytes).len() implies is_lower_hex_digit(
            #[trigger] hex_chars(bytes)[i],
        ) by {
            if i >= 2 {
                assert(hex_chars(bytes)[i] == hex_chars(bytes.drop_first())[i - 2]);
            } else {
                assert(is_lower_hex_digit(nibble_char((bytes[0] / 16) as nat)));
                assert(is_lower_hex_digit(nibble_char((bytes[0] % 16) as nat)));
            }
        }
    }
}

/// Computes the digest of a block's fields: always 64 lower-case
/// hexadecimal characters.
pub fn calculate_hash(
    index: u32,
    previous_hash: &str,
    timestamp: u64,
    data: &str,
    nonce: u32,
    difficulty: u32,
) -> (r: String)
    ensures
        r@ == spec_block_hash(
            index as nat,
            previous_hash@,
            timestamp as nat,
            data@,
            nonce as nat,
            difficulty as nat,
        ),
        r@.len() == 64,
        forall|i: int| 0 <= i < r@.len() ==> is_lower_hex_digit(#[trigger] r@[i]),
{
    let mut input = String::new();
    append_dec_u64(&mut input, index as u64);
    input.append(previous_hash);
    append_dec_u64(&mut input, timestamp);
    input.append(data);
    append_dec_u64(&mut input, nonce as u64);
    append_dec_u64(&mut input, difficulty as u64);
    proof {
        assert(input@ =~= hash_input(
            index as nat,
            previous_hash@,
            timestamp as nat,
            data@,
            nonce as nat,
            difficulty as nat,
        ));
    }
    let digest = sha256_digest(input.as_str());
    proof {
        lemma_hex_chars_props(digest@);
    }
    to_hex(&digest)
}

/// True when the first `difficulty` characters of `h` are all `'0'`.
pub open spec fn spec_hash_meets_difficulty(h: Seq<char>, difficulty: nat) -> bool {
    &&& difficulty <= h.len()
    &&& forall|i: int| 0 <= i < difficulty ==> h[i] == '0'
}

/// A hash satisfies a difficulty target when it carries at least
/// `difficulty` leading `'0'` characters.
pub fn is_hash_valid(hash: &str, difficulty: u32) -> (r: bool)
    ensures
        r == spec_hash_meets_difficulty(hash@, difficulty as nat),
{
    let len = hash.unicode_len();
    if (difficulty as usize) > len {
        return false;
    }
    let mut i: usize = 0;
    while i < difficulty as usize
        invariant
            i <= difficulty as usize,
            difficulty as usize <= hash@.len(),
            forall|j: int| 0 <= j < i ==> hash@[j] == '0',
        decreases difficulty as usize - i,
    {
        if hash.get_char(i) != '0' {
            return false;
        }
        i = i + 1;
    }
    true
}

} // verus!
