//! The retention policy: tokens such as `6D` or `4M`, read into tiers.
use vstd::prelude::*;

use crate::matcher::Generation;
use crate::retention::names_of;

verus! {

pub const SECONDS_PER_HOUR: i64 = 3600;

/// A generation token that does not follow `<digits><H|D|W|M|Y>`.
#[derive(Clone, Debug, PartialEq)]
pub struct PolicyParseError {
    pub token: String,
}

impl PolicyParseError {
    /// A line for the user naming the offending token.
    pub fn message(&self) -> (r: String)
        ensures
            r@ == "Failed to parse argument "@ + self.token@,
    {
        let mut m = String::from_str("Failed to parse argument ");
        m.append(self.token.as_str());
        m
    }
}

/// Hours in one unit: hour, day, week, 30-day month, 365-day year; 0 for any
/// other character.
pub open spec fn unit_hours(c: char) -> int {
    if c == 'H' {
        1
    } else if c == 'D' {
        24
    } else if c == 'W' {
        168
    } else if c == 'M' {
        720
    } else if c == 'Y' {
        8760
    } else {
        0
    }
}

pub open spec fn is_digit(c: char) -> bool {
    '0' <= c <= '9'
}

pub open spec fn all_digits(s: Seq<char>) -> bool {
    forall|i: int| 0 <= i < s.len() ==> is_digit(#[trigger] s[i])
}

/// The number that a string of decimal digits denotes.
pub open spec fn digits_value(s: Seq<char>) -> int
    decreases s.len(),
{
    if s.len() == 0 {
        0
    } else {
        digits_value(s.drop_last()) * 10 + (s.last() as int - '0' as int)
    }
}

/// The tier that one token denotes, if it is well formed and its count fits.
pub open spec fn parse_token(t: Seq<char>) -> Option<Generation> {
    if t.len() >= 2 && unit_hours(t.last()) > 0 && all_digits(t.drop_last()) && digits_value(
        t.drop_last(),
    ) <= usize::MAX {
        Some(
            Generation {
                interval: (unit_hours(t.last()) * 3600) as i64,
                count: digits_value(t.drop_last()) as usize,
            },
        )
    } else {
        None
    }
}

/// The tiers of the first `n` tokens, or the first token among them that fails.
pub open spec fn parse_tokens(args: Seq<Seq<char>>, n: nat) -> Result<Seq<Generation>, Seq<char>>
    decreases n,
{
    if n == 0 {
        Ok(Seq::empty())
    } else {
        match parse_tokens(args, (n - 1) as nat) {
            Err(e) => Err(e),
            Ok(v) => match parse_token(args[n - 1]) {
                Some(g) => Ok(v.push(g)),
                None => Err(args[n - 1]),
            },
        }
    }
}

proof fn lemma_digits_value_nonneg(s: Seq<char>)
    requires
        all_digits(s),
    ensures
        digits_value(s) >= 0,
    decreases s.len(),
{
    if s.len() > 0 {
        lemma_digits_value_nonneg(s.drop_last());
    }
}

/// On digits, a longer prefix never denotes a smaller number.
proof fn lemma_digits_value_grows(s: Seq<char>, j: int, k: int)
    requires
        all_digits(s),
        0 <= j <= k <= s.len(),
    ensures
        digits_value(s.subrange(0, j)) <= digits_value(s.subrange(0, k)),
    decreases k - j,
{
    if j < k {
        lemma_digits_value_grows(s, j, k - 1);
        let p = s.subrange(0, k - 1);
        assert(s.subrange(0, k).drop_last() == p);
        lemma_digits_value_nonneg(p);
    }
}

/// Once a token has failed, later tokens do not change the outcome.
proof fn lemma_parse_tokens_err_stays(args: Seq<Seq<char>>, n: nat, m: nat)
    requires
        n <= m,
        parse_tokens(args, n) is Err,
    ensures
        parse_tokens(args, m) == parse_tokens(args, n),
    decreases m - n,
{
    if n < m {
        lemma_parse_tokens_err_stays(args, n, (m - 1) as nat);
    }
}

/// Reads one token: digits, then one unit letter.
pub fn parse_generation(arg: &str) -> (r: Option<Generation>)
    ensures
        r == parse_token(arg@),
{
    let n = arg.unicode_len();
    if n < 2 {
        return None;
    }
    let unit = arg.get_char(n - 1);
    let hours: i64 = if unit == 'H' {
        1
    } else if unit == 'D' {
        24
    } else if unit == 'W' {
        168
    } else if unit == 'M' {
        720
    } else if unit == 'Y' {
        8760
    } else {
        return None;
    };
    let ghost digits = arg@.drop_last();
    let mut value: usize = 0;
    let mut i: usize = 0;
    while i < n - 1
        invariant
            n == arg@.len(),
            n >= 2,
            digits == arg@.drop_last(),
            i <= n - 1,
            all_digits(digits.subrange(0, i as int)),
            value == digits_value(digits.subrange(0, i as int)),
        decreases n - 1 - i,
    {
        let c = arg.get_char(i);
        if !('0' <= c && c <= '9') {
            assert(digits[i as int] == c);
            assert(!all_digits(digits));
            return None;
        }
        let next: u128 = value as u128 * 10 + (c as u32 - '0' as u32) as u128;
        proof {
            let pre = digits.subrange(0, i as int);
            let post = digits.subrange(0, i + 1);
            assert(post.drop_last() == pre);
            assert(all_digits(post));
        }
        if next > usize::MAX as u128 {
            proof {
                if all_digits(digits) {
                    lemma_digits_value_grows(digits, i + 1, digits.len() as int);
                    assert(digits.subrange(0, digits.len() as int) == digits);
                }
            }
            return None;
        }
        value = next as usize;
        i = i + 1;
    }
    proof {
        assert(digits.subrange(0, digits.len() as int) == digits);
    }
    Some(Generation { interval: hours * SECONDS_PER_HOUR, count: value })
}

/// Reads every token into a tier; fails on the first token that is not one.
pub fn parse_generations(generation_args: Vec<String>) -> (r: Result<
    Vec<Generation>,
    PolicyParseError,
>)
    ensures
        match r {
            Ok(v) => parse_tokens(names_of(generation_args@), generation_args.len() as nat) == Ok::<
                Seq<Generation>,
                Seq<char>,
            >(v@),
            Err(e) => parse_tokens(names_of(generation_args@), generation_args.len() as nat)
                == Err::<Seq<Generation>, Seq<char>>(e.token@),
        },
{
    let ghost args = names_of(generation_args@);
    let mut out: Vec<Generation> = Vec::new();
    let mut i: usize = 0;
    while i < generation_args.len()
        invariant
            i <= generation_args.len(),
            args == names_of(generation_args@),
            parse_tokens(args, i as nat) == Ok::<Seq<Generation>, Seq<char>>(out@),
        decreases generation_args.len() - i,
    {
        let arg = &generation_args[i];
        match parse_generation(arg.as_str()) {
            Some(g) => {
                out.push(g);
            },
            None => {
                proof {
                    assert(args[i as int] == arg@);
                    lemma_parse_tokens_err_stays(
                        args,
                        (i + 1) as nat,
                        generation_args.len() as nat,
                    );
                }
                return Err(PolicyParseError { token: arg.clone() });
            },
        }
        i = i + 1;
    }
    Ok(out)
}

} // verus!
