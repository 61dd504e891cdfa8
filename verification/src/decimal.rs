//! Decimal numerals: rendering an unsigned integer the way `{}` formats it, and
//! reading one the way `str::parse::<usize>` does.

use vstd::prelude::*;

use crate::text::string_from;

verus! {

/// The digit character for `d` (`0 <= d < 10`).
pub open spec fn digit_char(d: nat) -> char {
    if d == 0 {
        '0'
    } else if d == 1 {
        '1'
    } else if d == 2 {
        '2'
    } else if d == 3 {
        '3'
    } else if d == 4 {
        '4'
    } else if d == 5 {
        '5'
    } else if d == 6 {
        '6'
    } else if d == 7 {
        '7'
    } else if d == 8 {
        '8'
    } else {
        '9'
    }
}

/// The decimal numeral for `n`: no sign, no leading zeros, `"0"` for zero.
pub open spec fn decimal_of(n: nat) -> Seq<char>
    decreases n,
{
    if n < 10 {
        seq![digit_char(n)]
    } else {
        decimal_of(n / 10).push(digit_char(n % 10))
    }
}

/// Whether `c` is an ASCII decimal digit.
pub open spec fn is_digit(c: char) -> bool {
    '0' <= c && c <= '9'
}

/// The value of the digit character `c`.
pub open spec fn digit_value(c: char) -> nat {
    (c as u32 - '0' as u32) as nat
}

/// Whether every character of `s` is a decimal digit.
pub open spec fn all_digits(s: Seq<char>) -> bool {
    forall|i: int| 0 <= i < s.len() ==> is_digit(#[trigger] s[i])
}

/// The value of a run of digits, most significant first.
pub open spec fn digits_value(s: Seq<char>) -> nat
    decreases s.len(),
{
    if s.len() == 0 {
        0
    } else {
        digits_value(s.drop_last()) * 10 + digit_value(s.last())
    }
}

/// Reading an unsigned numeral no larger than `max`: an optional leading `+`,
/// then one or more decimal digits; anything else, or a value above `max`, is
/// refused.
pub open spec fn parse_unsigned(s: Seq<char>, max: nat) -> Option<nat> {
    let body = if s.len() > 0 && s[0] == '+' {
        s.drop_first()
    } else {
        s
    };
    if body.len() == 0 || !all_digits(body) || digits_value(body) > max {
        None
    } else {
        Some(digits_value(body))
    }
}

fn digit_to_char(d: u64) -> (c: char)
    requires
        d < 10,
    ensures
        c == digit_char(d as nat),
{
    if d == 0 {
        '0'
    } else if d == 1 {
        '1'
    } else if d == 2 {
        '2'
    } else if d == 3 {
        '3'
    } else if d == 4 {
        '4'
    } else if d == 5 {
        '5'
    } else if d == 6 {
        '6'
    } else if d == 7 {
        '7'
    } else if d == 8 {
        '8'
    } else {
        '9'
    }
}

/// `n` in decimal, as `format!("{n}")` writes it.
pub fn decimal(n: u64) -> (r: String)
    ensures
        r@ == decimal_of(n as nat),
{
    // digits are produced least significant first, then reversed
    let mut rev: Vec<char> = Vec::new();
    let mut m: u64 = n;
    let ghost mut done: Seq<char> = Seq::empty();
    loop
        invariant_except_break
            decimal_of(n as nat) == decimal_of(m as nat) + rev@.reverse(),
        ensures
            decimal_of(n as nat) == rev@.reverse(),
        decreases m,
    {
        if m < 10 {
            let ghost before = rev@;
            rev.push(digit_to_char(m));
            proof {
                assert(rev@.reverse() =~= seq![digit_char(m as nat)] + before.reverse());
            }
            break ;
        }
        let d = m % 10;
        let ghost before = rev@;
        rev.push(digit_to_char(d));
        proof {
            assert(rev@.reverse() =~= seq![digit_char(d as nat)] + before.reverse());
            assert(decimal_of(m as nat) == decimal_of((m / 10) as nat).push(digit_char(d as nat)));
            assert(decimal_of((m / 10) as nat).push(digit_char(d as nat)) + before.reverse()
                =~= decimal_of((m / 10) as nat) + rev@.reverse());
        }
        m = m / 10;
    }
    let mut out: Vec<char> = Vec::new();
    let mut i: usize = rev.len();
    while i > 0
        invariant
            i <= rev@.len(),
            out@ == rev@.subrange(i as int, rev@.len() as int).reverse(),
        decreases i,
    {
        i = i - 1;
        out.push(rev[i]);
        proof {
            assert(out@ =~= rev@.subrange(i as int, rev@.len() as int).reverse());
        }
    }
    proof {
        assert(rev@.subrange(0, rev@.len() as int) =~= rev@);
        assert(decimal_of(n as nat) =~= out@);
    }
    string_from(out.as_slice())
}

/// A prefix of a digit run never reads as more than the whole run.
proof fn lemma_digits_value_prefix(s: Seq<char>, k: int)
    requires
        0 <= k <= s.len(),
    ensures
        digits_value(s.take(k)) <= digits_value(s),
    decreases s.len(),
{
    if k < s.len() {
        lemma_digits_value_prefix(s.drop_last(), k);
        assert(s.drop_last().take(k) =~= s.take(k));
    } else {
        assert(s.take(k) =~= s);
    }
}

/// Read `s` as a `usize` the way `str::parse::<usize>` does: `None` where it
/// returns an error.
pub fn parse_usize(s: &str) -> (r: Option<usize>)
    ensures
        match r {
            Some(v) => parse_unsigned(s@, usize::MAX as nat) == Some(v as nat),
            None => parse_unsigned(s@, usize::MAX as nat) is None,
        },
{
    let cs = crate::text::chars_of(s);
    let start: usize = if cs.len() > 0 && cs[0] == '+' {
        1
    } else {
        0
    };
    let ghost body = if s@.len() > 0 && s@[0] == '+' {
        s@.drop_first()
    } else {
        s@
    };
    proof {
        assert(body =~= cs@.subrange(start as int, cs@.len() as int));
    }
    if start >= cs.len() {
        return None;
    }
    let mut v: usize = 0;
    let mut i: usize = start;
    while i < cs.len()
        invariant
            start <= i <= cs@.len(),
            cs@ == s@,
            body == cs@.subrange(start as int, cs@.len() as int),
            body == (if s@.len() > 0 && s@[0] == '+' {
                s@.drop_first()
            } else {
                s@
            }),
            all_digits(cs@.subrange(start as int, i as int)),
            v as nat == digits_value(cs@.subrange(start as int, i as int)),
        decreases cs@.len() - i,
    {
        let c = cs[i];
        let ghost pre = cs@.subrange(start as int, i as int);
        let ghost next = cs@.subrange(start as int, i + 1);
        proof {
            assert(next =~= body.take(i + 1 - start));
            assert(next.drop_last() =~= pre);
            assert(next.last() == c);
        }
        if !('0' <= c && c <= '9') {
            proof {
                assert(!is_digit(body[i - start]));
                assert(!all_digits(body));
            }
            return None;
        }
        let d = (c as u32 - '0' as u32) as usize;
        proof {
            assert(digits_value(next) == v * 10 + d);
        }
        match v.checked_mul(10) {
            None => {
                proof {
                    assert forall|k: int| 0 <= k < next.len() implies is_digit(#[trigger] next[k]) by {
                        if k < pre.len() {
                            assert(next[k] == pre[k]);
                        }
                    }
                    lemma_all_digits_prefix_value(body, next, i + 1 - start);
                    assert(digits_value(body) > usize::MAX);
                }
                return None;
            },
            Some(t) => match t.checked_add(d) {
                None => {
                    proof {
                        lemma_all_digits_prefix_value(body, next, i + 1 - start);
                        assert(digits_value(body) > usize::MAX);
                    }
                    return None;
                },
                Some(w) => {
                    v = w;
                },
            },
        }
        proof {
            assert forall|k: int| 0 <= k < next.len() implies is_digit(#[trigger] next[k]) by {
                if k < pre.len() {
                    assert(next[k] == pre[k]);
                }
            }
        }
        i = i + 1;
    }
    Some(v)
}

/// If a leading run of `body` already reads as more than `usize::MAX`, so
/// does `body`.
proof fn lemma_all_digits_prefix_value(body: Seq<char>, pre: Seq<char>, k: int)
    requires
        0 <= k <= body.len(),
        pre == body.take(k),
    ensures
        digits_value(pre) <= digits_value(body),
{
    lemma_digits_value_prefix(body, k);
}

/// A rendered numeral reads back as the number it renders.
pub proof fn lemma_decimal_reads_back(n: nat)
    ensures
        decimal_of(n).len() > 0,
        all_digits(decimal_of(n)),
        digits_value(decimal_of(n)) == n,
        decimal_of(n)[0] != '+',
    decreases n,
{
    if n < 10 {
        assert(digits_value(decimal_of(n)) == digits_value(Seq::<char>::empty()) * 10 + digit_value(
            digit_char(n),
        )) by {
            assert(decimal_of(n).drop_last() =~= Seq::<char>::empty());
        }
    } else {
        lemma_decimal_reads_back(n / 10);
        let p = decimal_of(n / 10);
        let s = decimal_of(n);
        assert(s.drop_last() =~= p);
        assert forall|i: int| 0 <= i < s.len() implies is_digit(#[trigger] s[i]) by {
            if i < p.len() {
                assert(s[i] == p[i]);
            }
        }
        assert(s[0] == p[0]);
        assert(n / 10 * 10 + n % 10 == n);
    }
}

/// `parse_unsigned` reads a rendered numeral back, within bounds.
pub proof fn lemma_parse_decimal(n: nat, max: nat)
    requires
        n <= max,
    ensures
        parse_unsigned(decimal_of(n), max) == Some(n),
{
    lemma_decimal_reads_back(n);
}

} // verus!
