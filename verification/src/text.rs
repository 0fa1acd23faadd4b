//! Decimal numbers as text, and the whitespace that separates words.
use vstd::prelude::*;

verus! {

/// The character of a decimal digit `d` (0 to 9).
pub open spec fn digit_char(d: int) -> char {
    if d == 0 {
        '0'
    } else if d == 1 {
        '1'
    } else if d == 2 {
        '2'
    } else if d == 3 {
        '3'
    } else if d == 4 {
        '4'
    } else if d == 5 {
        '5'
    } else if d == 6 {
        '6'
    } else if d == 7 {
        '7'
    } else if d == 8 {
        '8'
    } else {
        '9'
    }
}

/// The value of a decimal digit character.
pub open spec fn digit_value(c: char) -> int {
    c as int - '0' as int
}

/// An ASCII decimal digit.
pub open spec fn is_digit(c: char) -> bool {
    '0' <= c <= '9'
}

/// The shortest decimal notation of `n`.
pub open spec fn dec_nat(n: nat) -> Seq<char>
    decreases n,
{
    if n < 10 {
        seq![digit_char(n as int)]
    } else {
        dec_nat(n / 10).push(digit_char((n % 10) as int))
    }
}

/// Decimal notation of an integer: a minus sign before negative numbers.
pub open spec fn dec_int(v: int) -> Seq<char> {
    if v < 0 {
        seq!['-'] + dec_nat((-v) as nat)
    } else {
        dec_nat(v as nat)
    }
}

/// The value of a string of decimal digits.
pub open spec fn digits_value(t: Seq<char>) -> int
    decreases t.len(),
{
    if t.len() == 0 {
        0
    } else {
        digits_value(t.drop_last()) * 10 + digit_value(t.last())
    }
}

/// Every character is a decimal digit.
pub open spec fn all_digits(t: Seq<char>) -> bool {
    forall|i: int| 0 <= i < t.len() ==> is_digit(#[trigger] t[i])
}

/// The integer written in `t`, as `str::parse::<i32>` reads it: an optional `+` or
/// `-`, then one or more decimal digits, with a value that fits in an `i32`.
pub open spec fn parse_i32(t: Seq<char>) -> Option<i32> {
    if t.len() == 0 {
        None
    } else {
        let signed = t[0] == '-' || t[0] == '+';
        let body = if signed {
            t.skip(1)
        } else {
            t
        };
        let magnitude = digits_value(body);
        let v = if t[0] == '-' {
            -magnitude
        } else {
            magnitude
        };
        if body.len() == 0 || !all_digits(body) || v < i32::MIN || v > i32::MAX {
            None
        } else {
            Some(v as i32)
        }
    }
}

proof fn lemma_digit_char(d: int)
    requires
        0 <= d < 10,
    ensures
        is_digit(digit_char(d)),
        digit_value(digit_char(d)) == d,
{
    if d == 0 {
    } else if d == 1 {
    } else if d == 2 {
    } else if d == 3 {
    } else if d == 4 {
    } else if d == 5 {
    } else if d == 6 {
    } else if d == 7 {
    } else if d == 8 {
    } else {
    }
}

/// The decimal notation of `n` is a non-empty string of digits whose value is `n`.
pub proof fn lemma_dec_nat_digits(n: nat)
    ensures
        all_digits(dec_nat(n)),
        digits_value(dec_nat(n)) == n,
        dec_nat(n).len() > 0,
    decreases n,
{
    let d = dec_nat(n);
    lemma_digit_char((n % 10) as int);
    if n < 10 {
        assert(d.last() == digit_char(n as int));
        assert(d.drop_last() =~= Seq::<char>::empty());
        assert(digits_value(Seq::<char>::empty()) == 0);
    } else {
        lemma_dec_nat_digits(n / 10);
        let init = dec_nat(n / 10);
        assert(d.drop_last() =~= init);
        assert forall|i: int| 0 <= i < d.len() implies is_digit(#[trigger] d[i]) by {
            if i < init.len() {
                assert(d[i] == init[i]);
            }
        }
    }
}

/// Reading the decimal notation of an `i32` gives it back.
pub proof fn lemma_parse_dec(v: i32)
    ensures
        parse_i32(dec_int(v as int)) == Some(v),
        forall|i: int|
            0 <= i < dec_int(v as int).len() ==> is_digit(#[trigger] dec_int(v as int)[i])
                || dec_int(v as int)[i] == '-',
{
    let t = dec_int(v as int);
    if v < 0 {
        let m = (-(v as int)) as nat;
        lemma_dec_nat_digits(m);
        assert(t.skip(1) =~= dec_nat(m));
        assert(t[0] == '-');
        assert forall|i: int| 0 <= i < t.len() implies is_digit(#[trigger] t[i]) || t[i] == '-' by {
            if i > 0 {
                assert(t[i] == dec_nat(m)[i - 1]);
                assert(is_digit(dec_nat(m)[i - 1]));
            }
        }
    } else {
        lemma_dec_nat_digits(v as nat);
        assert(is_digit(t[0]));
        assert(t.skip(0) =~= t);
        assert forall|i: int| 0 <= i < t.len() implies is_digit(#[trigger] t[i]) || t[i] == '-' by {
            assert(is_digit(t[i]));
        }
    }
}

/// The characters with the Unicode `White_Space` property, which `char::is_whitespace`
/// recognises and `str::split_whitespace` splits on.
pub open spec fn is_white(c: char) -> bool {
    ||| '\u{9}' <= c <= '\u{d}'
    ||| c == ' '
    ||| c == '\u{85}'
    ||| c == '\u{a0}'
    ||| c == '\u{1680}'
    ||| '\u{2000}' <= c <= '\u{200a}'
    ||| c == '\u{2028}'
    ||| c == '\u{2029}'
    ||| c == '\u{202f}'
    ||| c == '\u{205f}'
    ||| c == '\u{3000}'
}

/// Whether `c` is white space.
pub fn is_white_char(c: char) -> (res: bool)
    ensures
        res == is_white(c),
{
    ('\u{9}' <= c && c <= '\u{d}') || c == ' ' || c == '\u{85}' || c == '\u{a0}' || c == '\u{1680}'
        || ('\u{2000}' <= c && c <= '\u{200a}') || c == '\u{2028}' || c == '\u{2029}' || c
        == '\u{202f}' || c == '\u{205f}' || c == '\u{3000}'
}

/// Appends `c` to `s`; std's `String::push`, which the documentation describes as
/// appending the given char to the end of the string.
#[verifier::external_body]
pub(crate) fn push_char(s: &mut String, c: char)
    ensures
        final(s)@ == old(s)@.push(c),
{
    s.push(c)
}

/// The digit character of `d`.
fn digit_of(d: u64) -> (c: char)
    requires
        d < 10,
    ensures
        c == digit_char(d as int),
{
    if d == 0 {
        '0'
    } else if d == 1 {
        '1'
    } else if d == 2 {
        '2'
    } else if d == 3 {
        '3'
    } else if d == 4 {
        '4'
    } else if d == 5 {
        '5'
    } else if d == 6 {
        '6'
    } else if d == 7 {
        '7'
    } else if d == 8 {
        '8'
    } else {
        '9'
    }
}

/// Appends the decimal notation of `n` to `s`.
pub fn push_decimal(s: &mut String, n: u64)
    ensures
        final(s)@ == old(s)@ + dec_nat(n as nat),
    decreases n,
{
    if n >= 10 {
        push_decimal(s, n / 10);
    }
    push_char(s, digit_of(n % 10));
    proof {
        if n < 10 {
            assert(dec_nat(n as nat) =~= seq![digit_char(n as int)]);
        }
    }
    assert(final(s)@ =~= old(s)@ + dec_nat(n as nat)) by {
        assert(dec_nat(n as nat) =~= if n < 10 {
            seq![digit_char(n as int)]
        } else {
            dec_nat((n / 10) as nat).push(digit_char((n % 10) as int))
        });
    }
}

/// Appends the decimal notation of `v` to `s`.
pub fn push_signed_decimal(s: &mut String, v: i64)
    ensures
        final(s)@ == old(s)@ + dec_int(v as int),
{
    if v < 0 {
        push_char(s, '-');
        let magnitude: u64 = if v == i64::MIN {
            9223372036854775808u64
        } else {
            (-v) as u64
        };
        push_decimal(s, magnitude);
        assert(s@ =~= old(s)@ + dec_int(v as int));
    } else {
        push_decimal(s, v as u64);
    }
}

/// Reads a word as `str::parse::<i32>` does.
pub fn parse_i32_word(t: &Vec<char>) -> (res: Option<i32>)
    ensures
        res == parse_i32(t@),
{
    if t.len() == 0 {
        return None;
    }
    let signed = t[0] == '-' || t[0] == '+';
    let start: usize = if signed {
        1
    } else {
        0
    };
    if start == t.len() {
        proof {
            assert(t@.skip(1).len() == 0);
        }
        return None;
    }
    let ghost body = t@.skip(start as int);
    assert(t@.skip(0) =~= t@);
    // the value of the digits read so far, held at 2^31 + 1 once it is larger
    let cap: u64 = 2147483649;
    let mut acc: u64 = 0;
    let mut i: usize = start;
    while i < t.len()
        invariant
            start <= i <= t.len(),
            body == t@.skip(start as int),
            t.len() > 0,
            body == (if t@[0] == '-' || t@[0] == '+' {
                t@.skip(1)
            } else {
                t@
            }),
            cap == 2147483649,
            all_digits(t@.subrange(start as int, i as int)),
            acc as int == if digits_value(t@.subrange(start as int, i as int)) < cap {
                digits_value(t@.subrange(start as int, i as int))
            } else {
                cap as int
            },
            digits_value(t@.subrange(start as int, i as int)) >= 0,
        decreases t.len() - i,
    {
        let c = t[i];
        if !('0' <= c && c <= '9') {
            proof {
                assert(body[i - start] == c);
                assert(!is_digit(body[i - start]));
                assert(!all_digits(body));
            }
            return None;
        }
        let d = (c as u32 - '0' as u32) as u64;
        let ghost prev = t@.subrange(start as int, i as int);
        let ghost next = t@.subrange(start as int, i + 1);
        assert(next.drop_last() =~= prev);
        assert(next.last() == c);
        assert(digits_value(next) == digits_value(prev) * 10 + d);
        let grown = acc * 10 + d;
        acc = if grown < cap {
            grown
        } else {
            cap
        };
        proof {
            if digits_value(prev) >= cap {
                assert(digits_value(prev) * 10 + d >= cap) by (nonlinear_arith)
                    requires
                        digits_value(prev) >= cap,
                        cap > 0,
                        d >= 0,
                ;
            }
            assert forall|j: int| 0 <= j < next.len() implies is_digit(#[trigger] next[j]) by {
                if j < prev.len() {
                    assert(next[j] == prev[j]);
                }
            }
        }
        i = i + 1;
    }
    assert(t@.subrange(start as int, t.len() as int) =~= body);
    let negative = t[0] == '-';
    let ghost magnitude = digits_value(body);
    assert(body.len() > 0 && all_digits(body));
    assert(acc as int == if magnitude < cap { magnitude } else { cap as int });
    if negative {
        if acc > 2147483648 {
            None
        } else {
            Some((0 - acc as i64) as i32)
        }
    } else {
        if acc > 2147483647 {
            None
        } else {
            Some(acc as i32)
        }
    }
}

} // verus!
