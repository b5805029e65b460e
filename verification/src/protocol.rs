//! The newline-delimited line protocol: one-character command codes with a
//! verbatim text argument, and the startup port argument.
//!
//! Each inbound line is `<code><argument...>` terminated by `\n` with an
//! optional preceding `\r`. The terminators are stripped; an empty line
//! yields no command; otherwise the first character is the command code and
//! the rest of the line, verbatim, is the argument.

use vstd::prelude::*;

use crate::DEFAULT_PORT;

verus! {

/// `s` with every trailing `\n` or `\r` removed.
pub open spec fn strip_terminators(s: Seq<char>) -> Seq<char>
    decreases s.len(),
{
    if s.len() > 0 && (s.last() == '\n' || s.last() == '\r') {
        strip_terminators(s.drop_last())
    } else {
        s
    }
}

/// A parsed protocol command: the line's first character and the rest of
/// the line, verbatim.
pub struct Command {
    pub code: char,
    pub arg: Vec<char>,
}

/// Strips trailing line terminators from `line` and splits off the command
/// code. Returns `None` exactly when nothing but terminators was sent: such
/// a line yields no command and is skipped silently.
pub fn parse_line(line: &[char]) -> (r: Option<Command>)
    ensures
        match r {
            Some(cmd) => {
                let body = strip_terminators(line@);
                body.len() > 0 && cmd.code == body[0] && cmd.arg@ == body.skip(1)
            },
            None => strip_terminators(line@).len() == 0,
        },
{
    let mut end = line.len();
    proof {
        assert(line@.take(line@.len() as int) =~= line@);
    }
    while end > 0 && (line[end - 1] == '\n' || line[end - 1] == '\r')
        invariant
            end <= line@.len(),
            strip_terminators(line@) == strip_terminators(line@.take(end as int)),
        decreases end,
    {
        proof {
            assert(line@.take(end as int).last() == line@[end - 1]);
            assert(line@.take(end as int).drop_last() =~= line@.take(end - 1));
        }
        end -= 1;
    }
    proof {
        assert(strip_terminators(line@.take(end as int)) == line@.take(end as int));
    }
    if end == 0 {
        None
    } else {
        let code = line[0];
        let mut arg: Vec<char> = Vec::new();
        let mut i: usize = 1;
        proof {
            assert(line@.subrange(1, 1) =~= Seq::<char>::empty());
        }
        while i < end
            invariant
                1 <= i <= end,
                end <= line@.len(),
                arg@ == line@.subrange(1, i as int),
            decreases end - i,
        {
            arg.push(line[i]);
            i += 1;
            proof {
                assert(line@.subrange(1, i as int) =~= line@.subrange(1, i - 1).push(
                    line@[i - 1],
                ));
            }
        }
        proof {
            assert(line@.take(end as int)[0] == line@[0]);
            assert(line@.subrange(1, end as int) =~= line@.take(end as int).skip(1));
        }
        Some(Command { code, arg })
    }
}

/// Whether `c` is an ASCII decimal digit.
pub open spec fn is_digit(c: char) -> bool {
    48 <= c as int && c as int <= 57
}

/// Every character of `s` is an ASCII decimal digit.
pub open spec fn all_digits(s: Seq<char>) -> bool {
    forall|i: int| 0 <= i < s.len() ==> is_digit(#[trigger] s[i])
}

/// The value of `s` read as a decimal numeral.
pub open spec fn dec_value(s: Seq<char>) -> int
    decreases s.len(),
{
    if s.len() == 0 {
        0
    } else {
        dec_value(s.drop_last()) * 10 + (s.last() as int - 48)
    }
}

/// What parsing `s` as an unsigned 16-bit port number yields: the decimal
/// value of its digits (after an optional leading `+`) when there is at
/// least one digit, nothing else stands in the way, and the value fits.
pub open spec fn parse_u16_spec(s: Seq<char>) -> Option<u16> {
    let digits = if s.len() > 0 && s[0] == '+' {
        s.skip(1)
    } else {
        s
    };
    if digits.len() > 0 && all_digits(digits) && dec_value(digits) <= 65535 {
        Some(dec_value(digits) as u16)
    } else {
        None
    }
}

proof fn lemma_dec_value_nonneg(s: Seq<char>)
    requires
        all_digits(s),
    ensures
        dec_value(s) >= 0,
    decreases s.len(),
{
    if s.len() > 0 {
        assert(all_digits(s.drop_last())) by {
            assert(forall|i: int|
                0 <= i < s.drop_last().len() ==> #[trigger] s.drop_last()[i] == s[i]);
        }
        lemma_dec_value_nonneg(s.drop_last());
    }
}

proof fn lemma_dec_value_prefix_le(s: Seq<char>, n: int)
    requires
        all_digits(s),
        0 <= n <= s.len(),
    ensures
        dec_value(s.take(n)) <= dec_value(s),
    decreases s.len() - n,
{
    if n == s.len() {
        assert(s.take(n) =~= s);
    } else {
        lemma_dec_value_prefix_le(s, n + 1);
        let t = s.take(n + 1);
        assert(t.drop_last() =~= s.take(n));
        assert(t.last() == s[n]);
        assert(all_digits(s.take(n))) by {
            assert(forall|i: int| 0 <= i < n ==> #[trigger] s.take(n)[i] == s[i]);
        }
        lemma_dec_value_nonneg(s.take(n));
        assert(dec_value(t) == dec_value(s.take(n)) * 10 + (s[n] as int - 48));
        assert(dec_value(s.take(n)) <= dec_value(s.take(n)) * 10) by (nonlinear_arith)
            requires
                dec_value(s.take(n)) >= 0,
        ;
    }
}

/// The Unicode code point of `c`, which always fits in 32 bits.
fn char_code(c: char) -> (d: u32)
    ensures
        d as int == c as int,
{
    proof {
        assert(c as int <= 0x10FFFF);
    }
    c as u32
}

/// Parses `arg` as a decimal unsigned 16-bit integer, with an optional
/// leading `+`, exactly as `parse_u16_spec` describes.
pub fn parse_port(arg: &[char]) -> (r: Option<u16>)
    ensures
        r == parse_u16_spec(arg@),
{
    let start: usize = if arg.len() > 0 && arg[0] == '+' {
        1
    } else {
        0
    };
    let ghost digits = if start == 1 {
        arg@.skip(1)
    } else {
        arg@
    };
    proof {
        if start == 1 {
            assert(forall|i: int| 0 <= i < digits.len() ==> #[trigger] digits[i] == arg@[i + 1]);
        }
    }
    if arg.len() == start {
        return None;
    }
    let mut acc: u32 = 0;
    let mut i: usize = start;
    proof {
        assert(digits.take(0) =~= Seq::<char>::empty());
    }
    while i < arg.len()
        invariant
            start <= i <= arg@.len(),
            start < arg@.len(),
            start == 0 || start == 1,
            start == 1 ==> arg@.len() > 0 && arg@[0] == '+',
            start == 0 ==> arg@.len() == 0 || arg@[0] != '+',
            digits == if start == 1 {
                arg@.skip(1)
            } else {
                arg@
            },
            all_digits(digits.take(i - start)),
            acc == dec_value(digits.take(i - start)),
            acc <= 65535,
        decreases arg@.len() - i,
    {
        let c = arg[i];
        let d = char_code(c);
        if d < 48 || d > 57 {
            proof {
                assert(digits[i - start] == arg@[i as int]);
                assert(!is_digit(digits[i - start]));
            }
            return None;
        }
        let ghost t = digits.take(i - start + 1);
        proof {
            assert(t.drop_last() =~= digits.take(i - start));
            assert(t.last() == digits[i - start] == arg@[i as int]);
            assert(forall|k: int| 0 <= k < t.len() ==> #[trigger] t[k] == digits[k]);
        }
        acc = acc * 10 + (d - 48);
        i += 1;
        if acc > 65535 {
            proof {
                if all_digits(digits) {
                    lemma_dec_value_prefix_le(digits, i - start);
                }
            }
            return None;
        }
    }
    proof {
        assert(digits.take(i - start) =~= digits);
    }
    Some(acc as u16)
}

/// The port given by the startup argument, or the default port when the
/// argument does not parse as an unsigned 16-bit integer.
pub fn port_or_default(arg: &[char]) -> (p: u16)
    ensures
        p == match parse_u16_spec(arg@) {
            Some(v) => v,
            None => DEFAULT_PORT,
        },
{
    match parse_port(arg) {
        Some(v) => v,
        None => DEFAULT_PORT,
    }
}

} // verus!
