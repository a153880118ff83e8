//! Decimal numerals over character sequences: what a numeral denotes,
//! and how a number is written out. Shared by date parsing/formatting and
//! by the store's reading of form fields.

use vstd::prelude::*;

verus! {

/// A decimal digit character.
pub open spec fn is_digit(c: char) -> bool {
    '0' <= c && c <= '9'
}

/// Numeric value of a digit character.
pub open spec fn digit_val(c: char) -> int {
    c as int - '0' as int
}

/// Every character of `s` is a decimal digit.
pub open spec fn all_digits(s: Seq<char>) -> bool {
    forall|i: int| 0 <= i < s.len() ==> is_digit(#[trigger] s[i])
}

/// The digits of a numeral: one optional leading `+` sign is no part of
/// the value. (Unsigned numerals accept the sign but no `-`.)
pub open spec fn numeral_digits(s: Seq<char>) -> Seq<char> {
    if s.len() > 0 && s[0] == '+' {
        s.drop_first()
    } else {
        s
    }
}

/// `s` is a well-formed unsigned decimal numeral: at least one digit,
/// nothing but digits after the optional leading `+`.
pub open spec fn parses_dec(s: Seq<char>) -> bool {
    numeral_digits(s).len() > 0 && all_digits(numeral_digits(s))
}

/// The number a well-formed numeral denotes.
pub open spec fn numeral_value(s: Seq<char>) -> int {
    dec_value(numeral_digits(s))
}

/// The number denoted by the digit string `s` (most significant digit first).
pub open spec fn dec_value(s: Seq<char>) -> int
    decreases s.len(),
{
    if s.len() == 0 {
        0
    } else {
        dec_value(s.drop_last()) * 10 + digit_val(s.last())
    }
}

/// The digit character for a value in `0..=9`.
pub open spec fn digit_char(d: int) -> char {
    if d == 0 {
        '0'
    } else if d == 1 {
        '1'
    } else if d == 2 {
        '2'
    } else if d == 3 {
        '3'
    } else if d == 4 {
        '4'
    } else if d == 5 {
        '5'
    } else if d == 6 {
        '6'
    } else if d == 7 {
        '7'
    } else if d == 8 {
        '8'
    } else {
        '9'
    }
}

/// The canonical decimal numeral of a non-negative number (no leading zeros,
/// except that `0` itself is written `"0"`).
pub open spec fn dec_digits(n: int) -> Seq<char>
    decreases n,
{
    if n < 10 {
        seq![digit_char(n)]
    } else {
        dec_digits(n / 10).push(digit_char(n % 10))
    }
}

pub proof fn lemma_all_digits_prefix(s: Seq<char>, i: int)
    requires
        all_digits(s),
        0 <= i <= s.len(),
    ensures
        all_digits(s.take(i)),
{
    assert forall|j: int| 0 <= j < s.take(i).len() implies is_digit(#[trigger] s.take(i)[j]) by {
        assert(s.take(i)[j] == s[j]);
    }
}

pub proof fn lemma_dec_value_nonneg(s: Seq<char>)
    requires
        all_digits(s),
    ensures
        dec_value(s) >= 0,
    decreases s.len(),
{
    if s.len() > 0 {
        assert forall|j: int| 0 <= j < s.drop_last().len() implies is_digit(
            #[trigger] s.drop_last()[j],
        ) by {
            assert(s.drop_last()[j] == s[j]);
        }
        lemma_dec_value_nonneg(s.drop_last());
        assert(is_digit(s.last()));
    }
}

/// The value of a digit string only grows as more digits are appended.
pub proof fn lemma_dec_value_prefix_le(s: Seq<char>, i: int)
    requires
        all_digits(s),
        0 <= i <= s.len(),
    ensures
        dec_value(s.take(i)) <= dec_value(s),
    decreases s.len() - i,
{
    if i == s.len() {
        assert(s.take(i) =~= s);
    } else {
        lemma_all_digits_prefix(s, i);
        lemma_dec_value_nonneg(s.take(i));
        assert(s.take(i + 1).drop_last() =~= s.take(i));
        assert(s.take(i + 1).last() == s[i]);
        assert(is_digit(s[i]));
        assert(dec_value(s.take(i + 1)) == dec_value(s.take(i)) * 10 + digit_val(s[i]));
        lemma_dec_value_prefix_le(s, i + 1);
    }
}

pub proof fn lemma_dec_digits_well_formed(n: int)
    requires
        n >= 0,
    ensures
        dec_digits(n).len() >= 1,
        all_digits(dec_digits(n)),
        numeral_digits(dec_digits(n)) == dec_digits(n),
        parses_dec(dec_digits(n)),
    decreases n,
{
    if n < 10 {
        assert(is_digit(digit_char(n)));
        assert(dec_digits(n) =~= seq![digit_char(n)]);
        assert(dec_digits(n)[0] == digit_char(n));
    } else {
        lemma_dec_digits_well_formed(n / 10);
        let prev = dec_digits(n / 10);
        assert forall|j: int| 0 <= j < dec_digits(n).len() implies is_digit(
            #[trigger] dec_digits(n)[j],
        ) by {
            if j < prev.len() {
                assert(dec_digits(n)[j] == prev[j]);
            } else {
                assert(dec_digits(n)[j] == digit_char(n % 10));
            }
        }
    }
    assert(is_digit(dec_digits(n)[0]));
    assert(dec_digits(n)[0] != '+');
}

/// Writing a number out and reading the digits back yields the same number.
pub proof fn lemma_dec_digits_value(n: int)
    requires
        n >= 0,
    ensures
        dec_value(dec_digits(n)) == n,
    decreases n,
{
    if n < 10 {
        assert(seq![digit_char(n)].drop_last() =~= Seq::<char>::empty());
        assert(dec_value(Seq::<char>::empty()) == 0);
        assert(seq![digit_char(n)].last() == digit_char(n));
        assert(dec_value(seq![digit_char(n)]) == digit_val(digit_char(n)));
        assert(digit_val(digit_char(n)) == n);
    } else {
        lemma_dec_digits_value(n / 10);
        let prev = dec_digits(n / 10);
        assert(dec_digits(n).drop_last() =~= prev);
        assert(dec_digits(n).last() == digit_char(n % 10));
        assert(digit_val(digit_char(n % 10)) == n % 10);
        vstd::arithmetic::div_mod::lemma_fundamental_div_mod(n, 10);
    }
}

/// Parses an unsigned decimal numeral — one optional leading `+`, then at
/// least one digit, as std reads unsigned numbers; anything else, or a
/// value over `u32::MAX`, yields `None`. This is the numeral reading
/// shared by date components and form fields.
pub fn parse_dec_u32(s: &str) -> (r: Option<u32>)
    ensures
        r == (if parses_dec(s@) && numeral_value(s@) <= u32::MAX {
            Some(numeral_value(s@) as u32)
        } else {
            None::<u32>
        }),
{
    let n = s.unicode_len();
    let mut i: usize = 0;
    if n > 0 {
        let c0 = s.get_char(0);
        if c0 == '+' {
            i = 1;
        }
    }
    let ghost off = i as int;
    let ghost digs = numeral_digits(s@);
    proof {
        assert(digs =~= s@.subrange(off, n as int));
    }
    if i == n {
        // Empty, or a lone sign: no digits to read.
        return None;
    }
    let mut acc: u64 = 0;
    while i < n
        invariant
            off <= i <= n,
            n == s@.len(),
            off == 0 || off == 1,
            digs == numeral_digits(s@),
            digs == s@.subrange(off, n as int),
            all_digits(digs.take(i - off)),
            acc == dec_value(digs.take(i - off)),
            acc <= u32::MAX,
        decreases n - i,
    {
        let ghost t = i as int - off;
        let c = s.get_char(i);
        let cv = c as u32;
        proof {
            assert(digs[t] == s@[i as int]);
        }
        if cv < 48 || cv > 57 {
            proof {
                assert(!is_digit(digs[t]));
                assert(!all_digits(digs));
            }
            return None;
        }
        let d = (cv - 48) as u64;
        proof {
            assert(digs.take(t + 1).drop_last() =~= digs.take(t));
            assert(digs.take(t + 1).last() == digs[t]);
            assert(is_digit(digs[t]));
            assert(digit_val(digs[t]) == d);
            assert forall|j: int| 0 <= j < t + 1 implies is_digit(
                #[trigger] digs.take(t + 1)[j],
            ) by {
                if j < t {
                    assert(digs.take(t + 1)[j] == digs.take(t)[j]);
                } else {
                    assert(digs.take(t + 1)[j] == digs[t]);
                }
            }
        }
        let acc2: u64 = acc * 10 + d;
        if acc2 > 0xFFFF_FFFF {
            proof {
                if all_digits(digs) {
                    lemma_dec_value_prefix_le(digs, t + 1);
                    assert(dec_value(digs.take(t + 1)) == acc2);
                    assert(dec_value(digs) > u32::MAX);
                }
            }
            return None;
        }
        acc = acc2;
        i += 1;
    }
    proof {
        assert(digs.take(n as int - off) =~= digs);
    }
    Some(acc as u32)
}

fn digit_str(d: u32) -> (r: &'static str)
    requires
        d < 10,
    ensures
        r@ == seq![digit_char(d as int)],
{
    if d == 0 {
        proof {
            reveal_strlit("0");
            assert("0"@ =~= seq![digit_char(0)]);
        }
        "0"
    } else if d == 1 {
        proof {
            reveal_strlit("1");
            assert("1"@ =~= seq![digit_char(1)]);
        }
        "1"
    } else if d == 2 {
        proof {
            reveal_strlit("2");
            assert("2"@ =~= seq![digit_char(2)]);
        }
        "2"
    } else if d == 3 {
        proof {
            reveal_strlit("3");
            assert("3"@ =~= seq![digit_char(3)]);
        }
        "3"
    } else if d == 4 {
        proof {
            reveal_strlit("4");
            assert("4"@ =~= seq![digit_char(4)]);
        }
        "4"
    } else if d == 5 {
        proof {
            reveal_strlit("5");
            assert("5"@ =~= seq![digit_char(5)]);
        }
        "5"
    } else if d == 6 {
        proof {
            reveal_strlit("6");
            assert("6"@ =~= seq![digit_char(6)]);
        }
        "6"
    } else if d == 7 {
        proof {
            reveal_strlit("7");
            assert("7"@ =~= seq![digit_char(7)]);
        }
        "7"
    } else if d == 8 {
        proof {
            reveal_strlit("8");
            assert("8"@ =~= seq![digit_char(8)]);
        }
        "8"
    } else {
        proof {
            reveal_strlit("9");
            assert("9"@ =~= seq![digit_char(9)]);
        }
        "9"
    }
}

/// Appends the canonical decimal numeral of `n` to `out`.
pub fn push_dec_u32(n: u32, out: &mut String)
    ensures
        final(out)@ == old(out)@ + dec_digits(n as int),
    decreases n,
{
    if n >= 10 {
        push_dec_u32(n / 10, out);
        let ds = digit_str(n % 10);
        out.append(ds);
        proof {
            assert(out@ =~= old(out)@ + dec_digits(n as int));
        }
    } else {
        let ds = digit_str(n);
        out.append(ds);
        proof {
            assert(dec_digits(n as int) =~= seq![digit_char(n as int)]);
            assert(out@ =~= old(out)@ + dec_digits(n as int));
        }
    }
}

} // verus!
