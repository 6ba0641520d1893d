//! Decimal text for the integer values that the persisted tables hold:
//! document ids, document frequencies, and fixed-point weights. Encoding is
//! canonical (no leading zeros, `-` for negative values); parsing accepts at
//! most [`MAX_CELL_DIGITS`] digits, so that every accepted value fits well
//! within 64 bits.

use vstd::prelude::*;

verus! {

/// Largest number of digits a numeric table cell may hold.
pub const MAX_CELL_DIGITS: usize = 15;

pub open spec fn pow10(k: nat) -> nat
    decreases k,
{
    if k == 0 {
        1
    } else {
        10 * pow10((k - 1) as nat)
    }
}

pub open spec fn digit_char(d: int) -> char {
    if d == 0 {
        '0'
    } else if d == 1 {
        '1'
    } else if d == 2 {
        '2'
    } else if d == 3 {
        '3'
    } else if d == 4 {
        '4'
    } else if d == 5 {
        '5'
    } else if d == 6 {
        '6'
    } else if d == 7 {
        '7'
    } else if d == 8 {
        '8'
    } else {
        '9'
    }
}

/// Value of a digit character; 10 marks a character that is no digit.
pub open spec fn digit_val(c: char) -> int {
    if c == '0' {
        0
    } else if c == '1' {
        1
    } else if c == '2' {
        2
    } else if c == '3' {
        3
    } else if c == '4' {
        4
    } else if c == '5' {
        5
    } else if c == '6' {
        6
    } else if c == '7' {
        7
    } else if c == '8' {
        8
    } else if c == '9' {
        9
    } else {
        10
    }
}

pub open spec fn is_digit(c: char) -> bool {
    digit_val(c) < 10
}

pub open spec fn all_digits(s: Seq<char>) -> bool {
    forall|i: int| 0 <= i < s.len() ==> is_digit(#[trigger] s[i])
}

/// Canonical decimal representation of a natural number.
pub open spec fn dec_rep(n: nat) -> Seq<char>
    decreases n,
{
    if n < 10 {
        seq![digit_char(n as int)]
    } else {
        dec_rep(n / 10).push(digit_char((n % 10) as int))
    }
}

/// Canonical decimal representation of an integer, with a leading `-` when
/// it is negative.
pub open spec fn dec_int_rep(i: int) -> Seq<char> {
    if i < 0 {
        seq!['-'] + dec_rep((-i) as nat)
    } else {
        dec_rep(i as nat)
    }
}

/// Value of a digit string, read left to right.
pub open spec fn dec_value(s: Seq<char>) -> int
    decreases s.len(),
{
    if s.len() == 0 {
        0
    } else {
        dec_value(s.drop_last()) * 10 + digit_val(s.last())
    }
}

/// What a numeric cell parses to: defined exactly when the cell is one to
/// [`MAX_CELL_DIGITS`] digits.
pub open spec fn parse_dec_spec(s: Seq<char>) -> Option<int> {
    if all_digits(s) && 1 <= s.len() <= MAX_CELL_DIGITS {
        Some(dec_value(s))
    } else {
        None
    }
}

/// What a signed numeric cell parses to: an optional `-`, then digits.
pub open spec fn parse_int_spec(s: Seq<char>) -> Option<int> {
    if s.len() >= 1 && s[0] == '-' {
        match parse_dec_spec(s.skip(1)) {
            Some(v) => Some(-v),
            None => None,
        }
    } else {
        parse_dec_spec(s)
    }
}

pub proof fn lemma_dec_rep_digits(n: nat)
    ensures
        all_digits(dec_rep(n)),
        dec_rep(n).len() >= 1,
    decreases n,
{
    if n < 10 {
    } else {
        lemma_dec_rep_digits(n / 10);
        assert forall|i: int| 0 <= i < dec_rep(n).len() implies is_digit(#[trigger] dec_rep(n)[i]) by {
            if i < dec_rep(n / 10).len() {
                assert(dec_rep(n)[i] == dec_rep(n / 10)[i]);
            }
        }
    }
}

pub proof fn lemma_pow10_15()
    ensures
        pow10(15nat) == 1000000000000000,
        pow10(14nat) == 100000000000000,
{
    reveal_with_fuel(pow10, 16);
}

pub proof fn lemma_pow10_mono(a: nat, b: nat)
    requires
        a <= b,
    ensures
        pow10(a) <= pow10(b),
    decreases b,
{
    if a < b {
        lemma_pow10_mono(a, (b - 1) as nat);
        assert(pow10(b) == 10 * pow10((b - 1) as nat));
    }
}

/// A number below `10^k` needs at most `k` digits.
pub proof fn lemma_dec_rep_len(n: nat, k: nat)
    requires
        k >= 1,
        n < pow10(k),
    ensures
        dec_rep(n).len() <= k,
    decreases n,
{
    if n < 10 {
    } else {
        assert(pow10(k) == 10 * pow10((k - 1) as nat));
        assert(n / 10 < pow10((k - 1) as nat));
        assert(k - 1 >= 1) by {
            if k == 1 {
                assert(pow10(1nat) == 10);
            }
        }
        lemma_dec_rep_len(n / 10, (k - 1) as nat);
    }
}

/// A digit string of length `k` holds a value below `10^k`.
pub proof fn lemma_dec_value_bound(s: Seq<char>)
    requires
        all_digits(s),
    ensures
        0 <= dec_value(s) < pow10(s.len()),
    decreases s.len(),
{
    if s.len() == 0 {
    } else {
        assert(all_digits(s.drop_last()));
        lemma_dec_value_bound(s.drop_last());
        assert(is_digit(s.last()));
        assert(pow10(s.len()) == 10 * pow10((s.len() - 1) as nat));
    }
}

/// Reading back the canonical representation gives the number itself.
pub proof fn lemma_dec_round_trip(n: nat)
    ensures
        dec_value(dec_rep(n)) == n,
    decreases n,
{
    if n < 10 {
        let s = dec_rep(n);
        assert(s =~= seq![digit_char(n as int)]);
        assert(s.drop_last() =~= Seq::<char>::empty());
        assert(s.last() == digit_char(n as int));
        assert(dec_value(s) == dec_value(s.drop_last()) * 10 + digit_val(s.last()));
        assert(dec_value(s.drop_last()) == 0);
        assert(digit_val(digit_char(n as int)) == n);
    } else {
        lemma_dec_round_trip(n / 10);
        let s = dec_rep(n / 10);
        let d = digit_char((n % 10) as int);
        assert(dec_rep(n) == s.push(d));
        assert(s.push(d).drop_last() =~= s);
        assert(s.push(d).last() == d);
        assert(dec_value(s.push(d)) == dec_value(s) * 10 + digit_val(d));
        assert(digit_val(d) == n % 10);
        assert(n / 10 * 10 + n % 10 == n) by {
            vstd::arithmetic::div_mod::lemma_fundamental_div_mod(n as int, 10);
        }
    }
}

/// Reading back the canonical representation of a small enough natural
/// number gives it back as an accepted cell.
pub proof fn lemma_dec_cell_round_trip(n: nat)
    requires
        n < pow10(MAX_CELL_DIGITS as nat),
    ensures
        parse_dec_spec(dec_rep(n)) == Some(n as int),
{
    lemma_dec_rep_digits(n);
    lemma_dec_rep_len(n, MAX_CELL_DIGITS as nat);
    lemma_dec_round_trip(n);
}

/// Reading back the canonical signed representation gives the integer, for
/// every integer small enough for a cell.
pub proof fn lemma_int_round_trip(i: int)
    requires
        -pow10(MAX_CELL_DIGITS as nat) < i < pow10(MAX_CELL_DIGITS as nat),
    ensures
        parse_int_spec(dec_int_rep(i)) == Some(i),
{
    if i < 0 {
        let m = (-i) as nat;
        lemma_dec_rep_digits(m);
        lemma_dec_rep_len(m, MAX_CELL_DIGITS as nat);
        lemma_dec_round_trip(m);
        assert((seq!['-'] + dec_rep(m)).skip(1) =~= dec_rep(m));
        assert(dec_int_rep(i)[0] == '-');
    } else {
        let m = i as nat;
        lemma_dec_rep_digits(m);
        lemma_dec_rep_len(m, MAX_CELL_DIGITS as nat);
        lemma_dec_round_trip(m);
        assert(is_digit(dec_rep(m)[0]));
        assert(dec_rep(m)[0] != '-');
    }
}

fn digit_to_str(d: u64) -> (r: &'static str)
    requires
        d < 10,
    ensures
        r@ == seq![digit_char(d as int)],
{
    proof {
        reveal_strlit("0");
        reveal_strlit("1");
        reveal_strlit("2");
        reveal_strlit("3");
        reveal_strlit("4");
        reveal_strlit("5");
        reveal_strlit("6");
        reveal_strlit("7");
        reveal_strlit("8");
        reveal_strlit("9");
    }
    let r = if d == 0 {
        "0"
    } else if d == 1 {
        "1"
    } else if d == 2 {
        "2"
    } else if d == 3 {
        "3"
    } else if d == 4 {
        "4"
    } else if d == 5 {
        "5"
    } else if d == 6 {
        "6"
    } else if d == 7 {
        "7"
    } else if d == 8 {
        "8"
    } else {
        "9"
    };
    proof {
        assert(r@ =~= seq![digit_char(d as int)]);
    }
    r
}

/// Canonical decimal text of an unsigned value.
pub fn u64_to_string(n: u64) -> (s: String)
    ensures
        s@ == dec_rep(n as nat),
    decreases n,
{
    if n < 10 {
        digit_to_str(n).to_owned()
    } else {
        let s0 = u64_to_string(n / 10);
        let s1 = s0.concat(digit_to_str(n % 10));
        proof {
            assert(s1@ =~= dec_rep((n / 10) as nat).push(digit_char((n as nat % 10) as int)));
        }
        s1
    }
}

/// Canonical decimal text of a signed value.
pub fn i64_to_string(n: i64) -> (s: String)
    ensures
        s@ == dec_int_rep(n as int),
{
    if n >= 0 {
        u64_to_string(n as u64)
    } else {
        let m128: i128 = -(n as i128);
        let m: u64 = m128 as u64;
        proof {
            reveal_strlit("-");
        }
        let s = "-".to_owned().concat(u64_to_string(m).as_str());
        proof {
            assert(s@ =~= seq!['-'] + dec_rep((-(n as int)) as nat));
        }
        s
    }
}

fn digit_of(c: char) -> (d: u64)
    ensures
        d == digit_val(c),
{
    if c == '0' {
        0
    } else if c == '1' {
        1
    } else if c == '2' {
        2
    } else if c == '3' {
        3
    } else if c == '4' {
        4
    } else if c == '5' {
        5
    } else if c == '6' {
        6
    } else if c == '7' {
        7
    } else if c == '8' {
        8
    } else if c == '9' {
        9
    } else {
        10
    }
}

/// Parses an unsigned numeric cell; `None` exactly when the text is not one
/// to [`MAX_CELL_DIGITS`] digits.
pub fn parse_u64(s: &str) -> (r: Option<u64>)
    ensures
        match r {
            Some(v) => parse_dec_spec(s@) == Some(v as int),
            None => parse_dec_spec(s@) is None,
        },
{
    let n = s.unicode_len();
    if n == 0 || n > MAX_CELL_DIGITS {
        return None;
    }
    let mut acc: u64 = 0;
    let mut i: usize = 0;
    while i < n
        invariant
            n == s@.len(),
            1 <= n <= MAX_CELL_DIGITS,
            i <= n,
            all_digits(s@.take(i as int)),
            acc == dec_value(s@.take(i as int)),
            0 <= acc < pow10(i as nat),
        decreases n - i,
    {
        let c = s.get_char(i);
        let d = digit_of(c);
        if d >= 10 {
            proof {
                assert(!is_digit(s@[i as int]));
            }
            return None;
        }
        proof {
            lemma_pow10_15();
            lemma_pow10_mono(i as nat, 14nat);
            assert(s@.take(i + 1).drop_last() =~= s@.take(i as int));
            assert(s@.take(i + 1).last() == s@[i as int]);
            assert(all_digits(s@.take(i + 1)));
            assert(pow10((i + 1) as nat) == 10 * pow10(i as nat));
        }
        acc = acc * 10 + d;
        i = i + 1;
    }
    proof {
        assert(s@.take(n as int) =~= s@);
    }
    Some(acc)
}

/// Parses a signed numeric cell: an optional `-`, then digits.
pub fn parse_i64(s: &str) -> (r: Option<i64>)
    ensures
        match r {
            Some(v) => parse_int_spec(s@) == Some(v as int),
            None => parse_int_spec(s@) is None,
        },
{
    let n = s.unicode_len();
    if n >= 1 && s.get_char(0) == '-' {
        let rest = s.substring_char(1, n);
        proof {
            assert(rest@ =~= s@.skip(1));
        }
        match parse_u64(rest) {
            Some(v) => {
                proof {
                    if all_digits(s@.skip(1)) && 1 <= s@.skip(1).len() <= MAX_CELL_DIGITS {
                        lemma_dec_value_bound(s@.skip(1));
                        lemma_pow10_mono(s@.skip(1).len() as nat, 15nat);
                        lemma_pow10_15();
                    }
                }
                Some((-(v as i64)) as i64)
            },
            None => None,
        }
    } else {
        match parse_u64(s) {
            Some(v) => {
                proof {
                    if all_digits(s@) && 1 <= s@.len() <= MAX_CELL_DIGITS {
                        lemma_dec_value_bound(s@);
                        lemma_pow10_mono(s@.len() as nat, 15nat);
                        lemma_pow10_15();
                    }
                }
                Some(v as i64)
            },
            None => None,
        }
    }
}

} // verus!
