//! Numbers as text.
use vstd::prelude::*;

use crate::text::chars;

verus! {

/// The character of a digit below 16.
pub open spec fn digit_char(d: int) -> char {
    if d < 10 {
        (48 + d) as u8 as char
    } else {
        (87 + d) as u8 as char
    }
}

/// The digits of `n` to a base, the most significant first.
pub open spec fn digits(n: nat, base: nat) -> Seq<char>
    decreases n,
{
    if base < 2 || n < base {
        seq![digit_char(n as int)]
    } else {
        proof {
            assert(n / base < n) by (nonlinear_arith)
                requires
                    n >= base,
                    base >= 2,
            ;
        }
        digits(n / base, base).push(digit_char((n % base) as int))
    }
}

/// A number in decimal.
pub open spec fn decimal(n: nat) -> Seq<char> {
    digits(n, 10)
}

/// A number in hexadecimal, with small letters.
pub open spec fn hex(n: nat) -> Seq<char> {
    digits(n, 16)
}

fn push_digits(n: u128, base: u128, out: &mut String)
    requires
        2 <= base <= 16,
    ensures
        final(out)@ == old(out)@ + digits(n as nat, base as nat),
    decreases n,
{
    let ghost before = out@;
    if n >= base {
        proof {
            assert(n / base < n) by (nonlinear_arith)
                requires
                    n >= base,
                    base >= 2,
            ;
        }
        push_digits(n / base, base, out);
    }
    proof {
        assert(n % base < base) by (nonlinear_arith)
            requires
                base >= 2,
        ;
    }
    let d: u8 = (n % base) as u8;
    let c: char = if d < 10 {
        (48 + d) as char
    } else {
        (87 + d) as char
    };
    out.push(c);
    proof {
        let q = (n / base) as nat;
        let r = (n % base) as nat;
        assert(n < base ==> n % base == n) by (nonlinear_arith)
            requires
                base >= 2,
        ;
        assert(c == digit_char(r as int));
        assert(n as nat / base as nat == q);
        assert(n as nat % base as nat == r);
        assert(n >= base ==> digits(n as nat, base as nat) == digits(q, base as nat).push(c));
    }
    assert(out@ =~= before + digits(n as nat, base as nat));
}

/// `n` in decimal.
pub fn to_decimal(n: u128) -> (r: String)
    ensures
        r@ == decimal(n as nat),
{
    let mut out: String = String::new();
    push_digits(n, 10, &mut out);
    assert(out@ =~= decimal(n as nat));
    out
}

/// `n` in hexadecimal, with small letters and without leading zeros.
pub fn to_hex(n: u128) -> (r: String)
    ensures
        r@ == hex(n as nat),
{
    let mut out: String = String::new();
    push_digits(n, 16, &mut out);
    assert(out@ =~= hex(n as nat));
    out
}

/// The value of a sequence of decimal digits.
pub open spec fn digits_value(s: Seq<char>) -> nat
    decreases s.len(),
{
    if s.len() == 0 {
        0
    } else {
        digits_value(s.drop_last()) * 10 + (s.last() as nat - 48) as nat
    }
}

/// A text of one digit or more, and nothing else.
pub open spec fn is_numeral(s: Seq<char>) -> bool {
    s.len() > 0 && forall|i: int| 0 <= i < s.len() ==> chars::is_digit(#[trigger] s[i])
}

/// The number that a text spells, which may begin with a plus sign.
pub open spec fn number_of(s: Seq<char>) -> Option<nat> {
    let t = if s.len() > 0 && s[0] == '+' {
        s.drop_first()
    } else {
        s
    };
    if is_numeral(t) {
        Some(digits_value(t))
    } else {
        None
    }
}

proof fn lemma_digits_value_grows(s: Seq<char>, n: int)
    requires
        0 <= n <= s.len(),
        forall|i: int| 0 <= i < s.len() ==> chars::is_digit(#[trigger] s[i]),
    ensures
        digits_value(s.take(n)) <= digits_value(s),
    decreases s.len(),
{
    if n == s.len() {
        assert(s.take(n) =~= s);
    } else {
        assert(s.drop_last().take(n) =~= s.take(n));
        lemma_digits_value_grows(s.drop_last(), n);
        assert(chars::is_digit(s[s.len() - 1]));
    }
}

/// The value of the digits of `v`, unless it is more than `max`.
pub fn value_upto(v: &[char], max: u64) -> (r: Option<u64>)
    requires
        forall|i: int| 0 <= i < v@.len() ==> chars::is_digit(#[trigger] v@[i]),
    ensures
        match r {
            Some(n) => n == digits_value(v@) && n <= max,
            None => digits_value(v@) > max,
        },
{
    let mut n: u64 = 0;
    let mut i: usize = 0;
    while i < v.len()
        invariant
            i <= v@.len(),
            n <= max,
            n == digits_value(v@.take(i as int)),
            forall|k: int| 0 <= k < v@.len() ==> chars::is_digit(#[trigger] v@[k]),
        decreases v@.len() - i,
    {
        assert(v@.take(i + 1).drop_last() =~= v@.take(i as int));
        assert(chars::is_digit(v@[i as int]));
        let d: u64 = (v[i] as u32 - 48) as u64;
        proof {
            lemma_digits_value_grows(v@, i + 1);
        }
        if n as u128 * 10 + d as u128 > max as u128 {
            return None;
        }
        n = n * 10 + d;
        i += 1;
    }
    assert(v@.take(v@.len() as int) =~= v@);
    Some(n)
}

/// The number that `s` spells, unless it is more than `max`.
pub fn parse_upto(s: &str, max: u64) -> (r: Option<u64>)
    ensures
        match r {
            Some(n) => number_of(s@) == Some(n as nat) && n <= max,
            None => match number_of(s@) {
                Some(n) => n > max,
                None => true,
            },
        },
{
    let v: Vec<char> = chars::to_chars(s);
    let from: usize = if v.len() > 0 && v[0] == '+' {
        1
    } else {
        0
    };
    let t: &[char] = vstd::slice::slice_subrange(v.as_slice(), from, v.len());
    assert(from == 1 ==> t@ =~= s@.drop_first());
    assert(from == 0 ==> t@ =~= s@);
    if t.len() == 0 {
        return None;
    }
    let mut i: usize = 0;
    while i < t.len()
        invariant
            i <= t@.len(),
            t@ == if s@.len() > 0 && s@[0] == '+' {
                s@.drop_first()
            } else {
                s@
            },
            forall|k: int| 0 <= k < i ==> chars::is_digit(#[trigger] t@[k]),
        decreases t@.len() - i,
    {
        if !chars::digit(t[i]) {
            assert(!chars::is_digit(t@[i as int]));
            assert(!is_numeral(t@));
            assert(number_of(s@) is None);
            return None;
        }
        i += 1;
    }
    value_upto(t, max)
}

/// A number in decimal is made of digits, and they spell that number.
pub proof fn law_decimal(n: nat)
    ensures
        decimal(n).len() > 0,
        forall|i: int| 0 <= i < decimal(n).len() ==> '0' <= #[trigger] decimal(n)[i] <= '9',
        digits_value(decimal(n)) == n,
    decreases n,
{
    let s = decimal(n);
    if n < 10 {
        assert(s =~= seq![digit_char(n as int)]);
        assert(s.drop_last() =~= Seq::empty());
        assert(digits_value(s.drop_last()) == 0);
        lemma_digit_char(n as int);
    } else {
        law_decimal(n / 10);
        lemma_digit_char((n % 10) as int);
        let front = decimal(n / 10);
        assert(s =~= front.push(digit_char((n % 10) as int)));
        assert(s.drop_last() =~= front);
        assert forall|i: int| 0 <= i < s.len() implies '0' <= #[trigger] s[i] <= '9' by {
            if i < front.len() {
                assert(s[i] == front[i]);
            }
        }
    }
}

proof fn lemma_digit_char(d: int)
    requires
        0 <= d < 10,
    ensures
        digit_char(d) as nat == 48 + d,
        '0' <= digit_char(d) <= '9',
{
}

/// A number that was written in decimal is read again.
pub proof fn law_number_is_read(n: nat)
    ensures
        number_of(decimal(n)) == Some(n),
{
    law_decimal(n);
    let s = decimal(n);
    assert('0' <= s[0] <= '9');
    assert(is_numeral(s)) by {
        assert forall|i: int| 0 <= i < s.len() implies chars::is_digit(#[trigger] s[i]) by {
            assert('0' <= s[i] <= '9');
        }
    }
}

} // verus!
