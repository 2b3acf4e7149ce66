use vstd::prelude::*;
use vstd::string::StrSliceExecFns;
use vstd::string::StringExecFns;
use crate::hashing::{append_dec_u64, dec_chars, digit_char};

verus! {

/// Splits `s` at every occurrence of `c`; `cur` is the part of the
/// current field read so far. Splitting the empty string yields one
/// empty field, as `str::split` does.
pub open spec fn split_char_go(s: Seq<char>, c: char, cur: Seq<char>) -> Seq<Seq<char>>
    decreases s.len(),
{
    if s.len() == 0 {
        seq![cur]
    } else if s[0] == c {
        seq![cur] + split_char_go(s.drop_first(), c, Seq::empty())
    } else {
        split_char_go(s.drop_first(), c, cur.push(s[0]))
    }
}

/// The fields of `s` between occurrences of the separator `c`.
pub open spec fn split_char(s: Seq<char>, c: char) -> Seq<Seq<char>> {
    split_char_go(s, c, Seq::empty())
}

proof fn lemma_split_go_step(s: Seq<char>, c: char, cur: Seq<char>, i: int)
    requires
        0 <= i < s.len(),
    ensures
        s[i] == c ==> split_char_go(s.skip(i), c, cur) == seq![cur] + split_char_go(
            s.skip(i + 1),
            c,
            Seq::empty(),
        ),
        s[i] != c ==> split_char_go(s.skip(i), c, cur) == split_char_go(
            s.skip(i + 1),
            c,
            cur.push(s[i]),
        ),
{
    assert(s.skip(i).len() > 0);
    assert(s.skip(i)[0] == s[i]);
    assert(s.skip(i).drop_first() =~= s.skip(i + 1));
}

/// Splits a string at every occurrence of the separator character.
pub fn split_str(s: &str, sep: char) -> (r: Vec<String>)
    ensures
        r@.map_values(|t: String| t@) == split_char(s@, sep),
        r@.len() >= 1,
{
    let n = s.unicode_len();
    let mut out: Vec<String> = Vec::new();
    let mut start: usize = 0;
    let mut i: usize = 0;
    proof {
        assert(s@.skip(0) =~= s@);
        assert(s@.subrange(0, 0) =~= Seq::<char>::empty());
        assert(out@.map_values(|t: String| t@) =~= Seq::<Seq<char>>::empty());
        assert(out@.map_values(|t: String| t@) + split_char_go(s@, sep, Seq::empty())
            =~= split_char_go(s@, sep, Seq::empty()));
    }
    while i < n
        invariant
            0 <= start <= i <= n == s@.len(),
            split_char(s@, sep) == out@.map_values(|t: String| t@) + split_char_go(
                s@.skip(i as int),
                sep,
                s@.subrange(start as int, i as int),
            ),
        decreases n - i,
    {
        let ch = s.get_char(i);
        if ch == sep {
            proof {
                lemma_split_go_step(s@, sep, s@.subrange(start as int, i as int), i as int);
            }
            let field = s.substring_char(start, i);
            let frag = String::from_str(field);
            out.push(frag);
            proof {
                assert(out@.map_values(|t: String| t@) =~= old_map_push(
                    out@,
                    s@.subrange(start as int, i as int),
                ));
            }
            start = i + 1;
            proof {
                assert(s@.subrange(start as int, (i + 1) as int) =~= Seq::<char>::empty());
            }
        } else {
            proof {
                lemma_split_go_step(s@, sep, s@.subrange(start as int, i as int), i as int);
                assert(s@.subrange(start as int, i as int).push(s@[i as int]) =~= s@.subrange(
                    start as int,
                    (i + 1) as int,
                ));
            }
        }
        i = i + 1;
    }
    let field = s.substring_char(start, n);
    let frag = String::from_str(field);
    out.push(frag);
    proof {
        assert(s@.skip(n as int).len() == 0);
        assert(split_char_go(s@.skip(n as int), sep, s@.subrange(start as int, n as int))
            == seq![s@.subrange(start as int, n as int)]);
        assert(out@.map_values(|t: String| t@) =~= split_char(s@, sep));
    }
    out
}

/// The views of a string sequence after one more string is pushed.
spec fn old_map_push(all: Seq<String>, last: Seq<char>) -> Seq<Seq<char>>
    recommends
        all.len() > 0,
{
    all.drop_last().map_values(|t: String| t@).push(last)
}

/// Character-for-character string equality.
pub fn str_eq(a: &str, b: &str) -> (r: bool)
    ensures
        r == (a@ == b@),
{
    let na = a.unicode_len();
    let nb = b.unicode_len();
    if na != nb {
        return false;
    }
    let mut i: usize = 0;
    while i < na
        invariant
            0 <= i <= na == a@.len() == b@.len(),
            forall|j: int| 0 <= j < i ==> a@[j] == b@[j],
        decreases na - i,
    {
        if a.get_char(i) != b.get_char(i) {
            return false;
        }
        i = i + 1;
    }
    proof {
        assert(a@ =~= b@);
    }
    true
}

/// A decimal digit character.
pub open spec fn is_dec_digit(c: char) -> bool {
    48 <= c as int <= 57
}

/// Every character is a decimal digit.
pub open spec fn all_dec_digits(s: Seq<char>) -> bool {
    forall|i: int| 0 <= i < s.len() ==> is_dec_digit(#[trigger] s[i])
}

/// The value of a string of decimal digits, most significant first.
pub open spec fn dec_val(s: Seq<char>) -> nat
    decreases s.len(),
{
    if s.len() == 0 {
        0
    } else {
        dec_val(s.drop_last()) * 10 + (s.last() as int - 48) as nat
    }
}

pub proof fn lemma_dec_val_prefix_le(s: Seq<char>, i: int)
    requires
        0 <= i <= s.len(),
    ensures
        dec_val(s.take(i)) <= dec_val(s),
    decreases s.len() - i,
{
    if i < s.len() {
        assert(s.take(i + 1).drop_last() =~= s.take(i));
        assert(dec_val(s.take(i)) <= dec_val(s.take(i + 1)));
        lemma_dec_val_prefix_le(s, i + 1);
        assert(s.take(s.len() as int) =~= s);
    } else {
        assert(s.take(i) =~= s);
    }
}

pub proof fn lemma_dec_chars_digits(n: nat)
    ensures
        all_dec_digits(dec_chars(n)),
        dec_chars(n).len() > 0,
    decreases n,
{
    if n < 10 {
    } else {
        lemma_dec_chars_digits(n / 10);
        assert(forall|i: int|
            0 <= i < dec_chars(n / 10).len() ==> dec_chars(n)[i] == dec_chars(n / 10)[i]);
        assert(dec_chars(n).last() == digit_char(n % 10));
    }
}

proof fn lemma_digit_char_val(d: nat)
    requires
        d < 10,
    ensures
        digit_char(d) as int == 48 + d,
{
}

pub proof fn lemma_dec_val_dec_chars(n: nat)
    ensures
        dec_val(dec_chars(n)) == n,
    decreases n,
{
    reveal_with_fuel(dec_val, 2);
    if n < 10 {
        lemma_digit_char_val(n);
        assert(dec_chars(n).drop_last() =~= Seq::<char>::empty());
        assert(dec_chars(n).last() == digit_char(n));
    } else {
        lemma_digit_char_val(n % 10);
        lemma_dec_val_dec_chars(n / 10);
        assert(dec_chars(n).drop_last() =~= dec_chars(n / 10));
        assert(dec_val(dec_chars(n)) == dec_val(dec_chars(n / 10)) * 10 + (dec_chars(
            n,
        ).last() as int - 48) as nat);
        assert(n / 10 * 10 + n % 10 == n) by (nonlinear_arith);
    }
}

/// A number token.
pub open spec fn num_tok(n: nat) -> Seq<char> {
    dec_chars(n) + seq![';']
}

/// A possibly signed number token.
pub open spec fn int_tok(n: int) -> Seq<char> {
    int_chars(n) + seq![';']
}

/// A length-prefixed string token.
pub open spec fn str_tok(s: Seq<char>) -> Seq<char> {
    dec_chars(s.len()) + seq![':'] + s
}


/// The first position at or after `i` that does not hold a decimal
/// digit.
pub open spec fn scan_digits(s: Seq<char>, i: int) -> int
    decreases s.len() - i,
{
    if 0 <= i < s.len() && is_dec_digit(s[i]) {
        scan_digits(s, i + 1)
    } else {
        i
    }
}

/// Reads one number token: decimal digits up to a closing `';'`, with
/// the value capped at `max`.
pub open spec fn parse_num(s: Seq<char>, i: int, max: nat) -> Option<(nat, int)> {
    let e = scan_digits(s, i);
    if i < e && e < s.len() && s[e] == ';' && dec_val(s.subrange(i, e)) <= max {
        Some((dec_val(s.subrange(i, e)), e + 1))
    } else {
        None
    }
}

/// Reads one possibly signed number token; the value must fit `i64`.
pub open spec fn parse_snum(s: Seq<char>, i: int) -> Option<(int, int)> {
    if 0 <= i < s.len() && s[i] == '-' {
        match parse_num(s, i + 1, 9223372036854775808nat) {
            Some((v, p)) => Some((-(v as int), p)),
            None => None,
        }
    } else {
        match parse_num(s, i, i64::MAX as nat) {
            Some((v, p)) => Some((v as int, p)),
            None => None,
        }
    }
}

/// Reads one string token: a character count, `':'`, and that many raw
/// characters.
pub open spec fn parse_str(s: Seq<char>, i: int) -> Option<(Seq<char>, int)> {
    let e = scan_digits(s, i);
    if i < e && e < s.len() && s[e] == ':' {
        let n = dec_val(s.subrange(i, e));
        if e + 1 + n <= s.len() {
            Some((s.subrange(e + 1, e + 1 + n), e + 1 + n))
        } else {
            None
        }
    } else {
        None
    }
}


pub fn append_num_tok(out: &mut String, n: u64)
    ensures
        final(out)@ == old(out)@ + num_tok(n as nat),
{
    proof {
        reveal_strlit(";");
    }
    append_dec_u64(out, n);
    out.append(";");
    proof {
        assert(final(out)@ =~= old(out)@ + num_tok(n as nat));
    }
}

pub fn append_str_tok(out: &mut String, s: &str)
    ensures
        final(out)@ == old(out)@ + str_tok(s@),
{
    proof {
        reveal_strlit(":");
    }
    let n = s.unicode_len();
    append_dec_u64(out, n as u64);
    out.append(":");
    out.append(s);
    proof {
        assert(final(out)@ =~= old(out)@ + str_tok(s@));
    }
}


pub proof fn lemma_scan_exact(s: Seq<char>, i: int, e: int)
    requires
        0 <= i <= e <= s.len(),
        forall|j: int| i <= j < e ==> is_dec_digit(#[trigger] s[j]),
        e == s.len() || !is_dec_digit(s[e]),
    ensures
        scan_digits(s, i) == e,
    decreases e - i,
{
    if i < e {
        lemma_scan_exact(s, i + 1, e);
    }
}

pub proof fn lemma_parse_num_tok(a: Seq<char>, n: nat, max: nat, b: Seq<char>)
    requires
        n <= max,
    ensures
        parse_num(a + num_tok(n) + b, a.len() as int, max) == Some(
            (n, (a.len() + num_tok(n).len()) as int),
        ),
{
    let s = a + num_tok(n) + b;
    let d = dec_chars(n);
    lemma_dec_chars_digits(n);
    lemma_dec_val_dec_chars(n);
    let i = a.len() as int;
    let e = i + d.len() as int;
    assert forall|j: int| i <= j < e implies is_dec_digit(#[trigger] s[j]) by {
        assert(s[j] == d[j - i]);
    }
    assert(s[e] == ';');
    assert(!is_dec_digit(';'));
    lemma_scan_exact(s, i, e);
    assert(s.subrange(i, e) =~= d);
}

pub proof fn lemma_parse_str_tok(a: Seq<char>, t: Seq<char>, b: Seq<char>)
    ensures
        parse_str(a + str_tok(t) + b, a.len() as int) == Some(
            (t, (a.len() + str_tok(t).len()) as int),
        ),
{
    let s = a + str_tok(t) + b;
    let d = dec_chars(t.len());
    lemma_dec_chars_digits(t.len());
    lemma_dec_val_dec_chars(t.len());
    let i = a.len() as int;
    let e = i + d.len() as int;
    assert forall|j: int| i <= j < e implies is_dec_digit(#[trigger] s[j]) by {
        assert(s[j] == d[j - i]);
    }
    assert(s[e] == ':');
    assert(!is_dec_digit(':'));
    lemma_scan_exact(s, i, e);
    assert(s.subrange(i, e) =~= d);
    assert(s.subrange(e + 1, e + 1 + t.len()) =~= t);
}

pub proof fn lemma_parse_snum_tok(a: Seq<char>, v: int, b: Seq<char>)
    requires
        i64::MIN <= v <= i64::MAX,
    ensures
        parse_snum(a + int_tok(v) + b, a.len() as int) == Some(
            (v, (a.len() + int_tok(v).len()) as int),
        ),
{
    let s = a + int_tok(v) + b;
    let i = a.len() as int;
    if v >= 0 {
        assert(s =~= a + num_tok(v as nat) + b);
        lemma_parse_num_tok(a, v as nat, i64::MAX as nat, b);
        lemma_dec_chars_digits(v as nat);
        assert(s[i] == dec_chars(v as nat)[0]);
        assert(is_dec_digit(s[i]));
        assert(s[i] != '-');
    } else {
        assert(s[i] == '-');
        let a2 = a + seq!['-'];
        assert(s =~= a2 + num_tok((-v) as nat) + b);
        lemma_parse_num_tok(a2, (-v) as nat, 9223372036854775808nat, b);
        assert(parse_num(s, i + 1, 9223372036854775808nat) == Some(
            ((-v) as nat, (a2.len() + num_tok((-v) as nat).len()) as int),
        ));
    }
}

pub proof fn lemma_concat_assoc(x: Seq<char>, y: Seq<char>, z: Seq<char>)
    ensures
        (x + y) + z == x + (y + z),
{
    assert((x + y) + z =~= x + (y + z));
}


pub proof fn lemma_scan_bounds(s: Seq<char>, i: int)
    requires
        0 <= i <= s.len(),
    ensures
        i <= scan_digits(s, i) <= s.len(),
    decreases s.len() - i,
{
    if i < s.len() && is_dec_digit(s[i]) {
        lemma_scan_bounds(s, i + 1);
    }
}

/// Reads a run of decimal digits from `pos` and returns its value and
/// the position right after the digits; refuses an empty run and a
/// value over `max`.
pub fn scan_value(s: &str, n: usize, pos: usize, max: u64) -> (r: Option<(u64, usize)>)
    requires
        n == s@.len(),
        pos <= n,
    ensures
        match r {
            Some(v_e) => {
                let e = scan_digits(s@, pos as int);
                &&& v_e.1 == e
                &&& pos < v_e.1 <= n
                &&& v_e.0 == dec_val(s@.subrange(pos as int, e))
                &&& v_e.0 <= max
            },
            None => {
                let e = scan_digits(s@, pos as int);
                e == pos || dec_val(s@.subrange(pos as int, e)) > max
            },
        },
{
    let ghost e = scan_digits(s@, pos as int);
    proof {
        lemma_scan_bounds(s@, pos as int);
    }
    let mut i: usize = pos;
    let mut acc: u64 = 0;
    while i < n
        invariant_except_break
            n == s@.len(),
            pos <= i <= n,
            e == scan_digits(s@, pos as int),
            scan_digits(s@, i as int) == e,
            forall|j: int| pos <= j < i ==> is_dec_digit(#[trigger] s@[j]),
            acc == dec_val(s@.subrange(pos as int, i as int)),
            acc <= max,
        ensures
            n == s@.len(),
            pos <= i <= n,
            e == scan_digits(s@, pos as int),
            i == e,
            acc == dec_val(s@.subrange(pos as int, i as int)),
            acc <= max,
        decreases n - i,
    {
        let ch = s.get_char(i);
        let cv: u32 = ch as u32;
        if !(cv >= 48 && cv <= 57) {
            proof {
                assert(scan_digits(s@, i as int) == i as int);
            }
            break;
        }
        let d: u64 = (cv - 48) as u64;
        proof {
            assert(scan_digits(s@, i as int) == scan_digits(s@, i as int + 1));
            lemma_scan_bounds(s@, i as int + 1);
            assert(s@.subrange(pos as int, i as int + 1).drop_last() =~= s@.subrange(
                pos as int,
                i as int,
            ));
            assert(dec_val(s@.subrange(pos as int, i as int + 1)) == acc * 10 + d);
        }
        let next: u128 = (acc as u128) * 10 + (d as u128);
        if next > max as u128 {
            proof {
                lemma_dec_val_prefix_le(
                    s@.subrange(pos as int, e),
                    i as int + 1 - pos,
                );
                assert(s@.subrange(pos as int, e).take(i as int + 1 - pos) =~= s@.subrange(
                    pos as int,
                    i as int + 1,
                ));
            }
            return None;
        }
        acc = next as u64;
        i = i + 1;
    }
    if i == pos {
        return None;
    }
    Some((acc, i))
}

/// Reads one number token, consuming the closing `';'`.
pub fn take_num(s: &str, n: usize, pos: usize, max: u64) -> (r: Option<(u64, usize)>)
    requires
        n == s@.len(),
        pos <= n,
    ensures
        match r {
            Some(v_p) => parse_num(s@, pos as int, max as nat) == Some(
                (v_p.0 as nat, v_p.1 as int),
            ) && pos < v_p.1 <= n,
            None => parse_num(s@, pos as int, max as nat) is None,
        },
{
    match scan_value(s, n, pos, max) {
        None => None,
        Some((v, e)) => {
            if e == n {
                return None;
            }
            if s.get_char(e) != ';' {
                return None;
            }
            Some((v, e + 1))
        },
    }
}

/// Reads one possibly signed number token.
pub fn take_snum(s: &str, n: usize, pos: usize) -> (r: Option<(i64, usize)>)
    requires
        n == s@.len(),
        pos <= n,
    ensures
        match r {
            Some(v_p) => parse_snum(s@, pos as int) == Some((v_p.0 as int, v_p.1 as int))
                && pos < v_p.1 <= n,
            None => parse_snum(s@, pos as int) is None,
        },
{
    if pos < n && s.get_char(pos) == '-' {
        match take_num(s, n, pos + 1, 9223372036854775808u64) {
            None => None,
            Some((v, p)) => {
                let value: i64 = (-(v as i128)) as i64;
                proof {
                    assert(value as int == -(v as int));
                }
                Some((value, p))
            },
        }
    } else {
        match take_num(s, n, pos, i64::MAX as u64) {
            None => None,
            Some((v, p)) => Some((v as i64, p)),
        }
    }
}

/// Reads one string token.
pub fn take_str(s: &str, n: usize, pos: usize) -> (r: Option<(String, usize)>)
    requires
        n == s@.len(),
        pos <= n,
    ensures
        match r {
            Some(t_p) => parse_str(s@, pos as int) == Some((t_p.0@, t_p.1 as int)) && pos < t_p.1
                <= n,
            None => parse_str(s@, pos as int) is None,
        },
{
    match scan_value(s, n, pos, u64::MAX) {
        None => None,
        Some((v, e)) => {
            if e == n {
                return None;
            }
            if s.get_char(e) != ':' {
                return None;
            }
            let rem = n - (e + 1);
            if v > rem as u64 {
                return None;
            }
            let len = v as usize;
            let field = s.substring_char(e + 1, e + 1 + len);
            let out = String::from_str(field);
            Some((out, e + 1 + len))
        },
    }
}


/// The decimal rendering of a possibly negative amount.
pub open spec fn int_chars(n: int) -> Seq<char> {
    if n >= 0 {
        dec_chars(n as nat)
    } else {
        seq!['-'] + dec_chars((-n) as nat)
    }
}

/// Appends one possibly signed number token.
pub fn append_int_tok(out: &mut String, v: i64)
    ensures
        final(out)@ == old(out)@ + int_tok(v as int),
{
    proof {
        reveal_strlit(";");
        reveal_strlit("-");
    }
    if v < 0 {
        out.append("-");
        let magnitude: u64 = if v == i64::MIN {
            9223372036854775808u64
        } else {
            (-v) as u64
        };
        append_dec_u64(out, magnitude);
    } else {
        append_dec_u64(out, v as u64);
    }
    out.append(";");
    proof {
        assert(out@ =~= old(out)@ + int_tok(v as int));
    }
}


} // verus!
