//! Decimal digits: reading and writing numbers as text.

use vstd::prelude::*;
use vstd::arithmetic::div_mod::{lemma_fundamental_div_mod, lemma_mod_pos_bound};

verus! {

/// Is `c` one of `0` ... `9`?
pub open spec fn is_digit(c: char) -> bool {
    48 <= c as int <= 57
}

/// Numeric value of a digit character.
pub open spec fn digit_val(c: char) -> int {
    c as int - 48
}

/// Digit character of a value below ten.
pub open spec fn digit_char(v: int) -> char {
    if v == 0 {
        '0'
    } else if v == 1 {
        '1'
    } else if v == 2 {
        '2'
    } else if v == 3 {
        '3'
    } else if v == 4 {
        '4'
    } else if v == 5 {
        '5'
    } else if v == 6 {
        '6'
    } else if v == 7 {
        '7'
    } else if v == 8 {
        '8'
    } else {
        '9'
    }
}

pub proof fn lemma_digit_char_val(v: int)
    requires
        0 <= v < 10,
    ensures
        is_digit(digit_char(v)),
        digit_val(digit_char(v)) == v,
{
}

/// Every character of the sequence is a digit.
pub open spec fn all_digits(s: Seq<char>) -> bool {
    forall|i: int| 0 <= i < s.len() ==> is_digit(s[i])
}

/// Value of a digit sequence, most significant first.
pub open spec fn dec_val(s: Seq<char>) -> int
    decreases s.len(),
{
    if s.len() == 0 {
        0
    } else {
        dec_val(s.drop_last()) * 10 + digit_val(s.last())
    }
}

/// Two-character, zero-padded rendering of a value below one hundred.
pub open spec fn digits2(v: int) -> Seq<char> {
    seq![digit_char(v / 10), digit_char(v % 10)]
}

/// Four-character, zero-padded rendering of a value below ten thousand.
pub open spec fn digits4(v: int) -> Seq<char> {
    seq![
        digit_char(v / 1000),
        digit_char(v % 1000 / 100),
        digit_char(v % 1000 % 100 / 10),
        digit_char(v % 1000 % 100 % 10),
    ]
}

/// Minimal (no leading zero) rendering of a non-negative value.
pub open spec fn dec_digits(v: int) -> Seq<char>
    decreases v,
{
    if v < 10 {
        seq![digit_char(v)]
    } else {
        dec_digits(v / 10).push(digit_char(v % 10))
    }
}

/// The two-character value read at position `i`.
pub open spec fn num2(s: Seq<char>, i: int) -> int {
    10 * digit_val(s[i]) + digit_val(s[i + 1])
}

/// The four-character value read at position `i`.
pub open spec fn num4(s: Seq<char>, i: int) -> int {
    1000 * digit_val(s[i]) + 100 * digit_val(s[i + 1]) + 10 * digit_val(s[i + 2]) + digit_val(
        s[i + 3],
    )
}

pub proof fn lemma_digits2_value(v: int)
    requires
        0 <= v < 100,
    ensures
        is_digit(digits2(v)[0]),
        is_digit(digits2(v)[1]),
        10 * digit_val(digits2(v)[0]) + digit_val(digits2(v)[1]) == v,
{
    lemma_fundamental_div_mod(v, 10);
    lemma_mod_pos_bound(v, 10);
    lemma_digit_char_val(v / 10);
    lemma_digit_char_val(v % 10);
}

pub proof fn lemma_digits4_value(v: int)
    requires
        0 <= v < 10000,
    ensures
        forall|i: int| 0 <= i < 4 ==> is_digit(#[trigger] digits4(v)[i]),
        1000 * digit_val(digits4(v)[0]) + 100 * digit_val(digits4(v)[1]) + 10 * digit_val(
            digits4(v)[2],
        ) + digit_val(digits4(v)[3]) == v,
{
    lemma_fundamental_div_mod(v, 1000);
    lemma_mod_pos_bound(v, 1000);
    lemma_fundamental_div_mod(v % 1000, 100);
    lemma_mod_pos_bound(v % 1000, 100);
    lemma_fundamental_div_mod(v % 1000 % 100, 10);
    lemma_mod_pos_bound(v % 1000 % 100, 10);
    lemma_digit_char_val(v / 1000);
    lemma_digit_char_val(v % 1000 / 100);
    lemma_digit_char_val(v % 1000 % 100 / 10);
    lemma_digit_char_val(v % 1000 % 100 % 10);
    assert forall|i: int| 0 <= i < 4 implies is_digit(#[trigger] digits4(v)[i]) by {
        if i == 0 {
        } else if i == 1 {
        } else if i == 2 {
        } else {
        }
    }
}

/// Append one digit character.
pub fn append_digit(out: &mut String, v: u8)
    requires
        v < 10,
    ensures
        final(out)@ == old(out)@.push(digit_char(v as int)),
{
    if v == 0 {
        out.append("0");
        proof {
            reveal_strlit("0");
            assert(out@ =~= old(out)@.push('0'));
        }
    } else if v == 1 {
        out.append("1");
        proof {
            reveal_strlit("1");
            assert(out@ =~= old(out)@.push('1'));
        }
    } else if v == 2 {
        out.append("2");
        proof {
            reveal_strlit("2");
            assert(out@ =~= old(out)@.push('2'));
        }
    } else if v == 3 {
        out.append("3");
        proof {
            reveal_strlit("3");
            assert(out@ =~= old(out)@.push('3'));
        }
    } else if v == 4 {
        out.append("4");
        proof {
            reveal_strlit("4");
            assert(out@ =~= old(out)@.push('4'));
        }
    } else if v == 5 {
        out.append("5");
        proof {
            reveal_strlit("5");
            assert(out@ =~= old(out)@.push('5'));
        }
    } else if v == 6 {
        out.append("6");
        proof {
            reveal_strlit("6");
            assert(out@ =~= old(out)@.push('6'));
        }
    } else if v == 7 {
        out.append("7");
        proof {
            reveal_strlit("7");
            assert(out@ =~= old(out)@.push('7'));
        }
    } else if v == 8 {
        out.append("8");
        proof {
            reveal_strlit("8");
            assert(out@ =~= old(out)@.push('8'));
        }
    } else {
        out.append("9");
        proof {
            reveal_strlit("9");
            assert(out@ =~= old(out)@.push('9'));
        }
    }
}

/// Append a value below one hundred as two zero-padded digits.
pub fn append_2digits(out: &mut String, v: u32)
    requires
        v < 100,
    ensures
        final(out)@ == old(out)@ + digits2(v as int),
{
    append_digit(out, (v / 10) as u8);
    append_digit(out, (v % 10) as u8);
    proof {
        assert(out@ =~= old(out)@ + digits2(v as int));
    }
}

/// Append a value below ten thousand as four zero-padded digits.
pub fn append_4digits(out: &mut String, v: u32)
    requires
        v < 10000,
    ensures
        final(out)@ == old(out)@ + digits4(v as int),
{
    append_digit(out, (v / 1000) as u8);
    append_digit(out, (v % 1000 / 100) as u8);
    append_digit(out, (v % 1000 % 100 / 10) as u8);
    append_digit(out, (v % 1000 % 100 % 10) as u8);
    proof {
        assert(out@ =~= old(out)@ + digits4(v as int));
    }
}

/// Append a non-negative value with no padding and no leading zeros.
pub fn append_u32(out: &mut String, v: u32)
    ensures
        final(out)@ == old(out)@ + dec_digits(v as int),
    decreases v,
{
    if v >= 10 {
        append_u32(out, v / 10);
    }
    append_digit(out, (v % 10) as u8);
    proof {
        if v < 10 {
            assert(v as int % 10 == v as int);
            assert(out@ =~= old(out)@ + dec_digits(v as int));
        } else {
            assert(out@ =~= old(out)@ + dec_digits(v as int));
        }
    }
}

pub proof fn lemma_dec_digits_value(v: int)
    requires
        v >= 0,
    ensures
        all_digits(dec_digits(v)),
        dec_val(dec_digits(v)) == v,
        dec_digits(v).len() >= 1,
    decreases v,
{
    if v < 10 {
        lemma_digit_char_val(v);
        assert(dec_digits(v).drop_last() =~= Seq::<char>::empty());
        assert(dec_val(Seq::<char>::empty()) == 0);
        assert(dec_digits(v).last() == digit_char(v));
        assert(dec_val(dec_digits(v)) == 0 * 10 + digit_val(digit_char(v)));
    } else {
        lemma_dec_digits_value(v / 10);
        lemma_fundamental_div_mod(v, 10);
        lemma_mod_pos_bound(v, 10);
        lemma_digit_char_val(v % 10);
        assert(dec_digits(v).drop_last() =~= dec_digits(v / 10));
        assert(dec_digits(v).last() == digit_char(v % 10));
        assert forall|i: int| 0 <= i < dec_digits(v).len() implies is_digit(
            #[trigger] dec_digits(v)[i],
        ) by {
            if i < dec_digits(v / 10).len() {
                assert(dec_digits(v)[i] == dec_digits(v / 10)[i]);
            }
        }
        assert(dec_val(dec_digits(v)) == dec_val(dec_digits(v / 10)) * 10 + digit_val(
            digit_char(v % 10),
        ));
    }
}

/// The digits of a decimal number: everything after an optional plus sign.
pub open spec fn parse_body(s: Seq<char>) -> Seq<char> {
    if s.len() > 0 && s[0] == '+' {
        s.drop_first()
    } else {
        s
    }
}

/// What `u32` parsing makes of a string: an optional leading plus sign,
/// then at least one digit, the value fitting in 32 bits.
pub open spec fn parse_u32_spec(s: Seq<char>) -> Option<u32> {
    let body = parse_body(s);
    if body.len() > 0 && all_digits(body) && dec_val(body) <= u32::MAX {
        Some(dec_val(body) as u32)
    } else {
        None
    }
}

/// Parse a decimal `u32`, as `parse_u32_spec` names it.
pub fn parse_u32(s: &str) -> (r: Option<u32>)
    ensures
        r == parse_u32_spec(s@),
{
    let n = s.unicode_len();
    let start: usize = if n > 0 && s.get_char(0) == '+' {
        1
    } else {
        0
    };
    let ghost body = parse_body(s@);
    proof {
        assert(body =~= s@.subrange(start as int, n as int));
    }
    if n == start {
        return None;
    }
    let mut i: usize = start;
    let mut acc: u64 = 0;
    let mut over: bool = false;
    while i < n
        invariant
            start <= i <= n,
            n == s@.len(),
            n > start,
            body == s@.subrange(start as int, n as int),
            body == parse_body(s@),
            all_digits(s@.subrange(start as int, i as int)),
            !over ==> acc == dec_val(s@.subrange(start as int, i as int)) && acc <= u32::MAX,
            over ==> dec_val(s@.subrange(start as int, i as int)) > u32::MAX,
        decreases n - i,
    {
        let c = s.get_char(i);
        let u = c as u32;
        if u < 48 || u > 57 {
            proof {
                assert(u as int == c as int);
                assert(body[i - start] == s@[i as int]);
                assert(!is_digit(body[i - start]));
                assert(!all_digits(body));
            }
            return None;
        }
        let d = (u - 48) as u64;
        proof {
            assert(s@.subrange(start as int, i + 1 as int).drop_last() =~= s@.subrange(
                start as int,
                i as int,
            ));
            assert(s@.subrange(start as int, i + 1 as int).last() == s@[i as int]);
        }
        if over {
            proof {
                assert(dec_val(s@.subrange(start as int, i + 1 as int)) > u32::MAX);
            }
        } else {
            let next = acc * 10 + d;
            if next > u32::MAX as u64 {
                over = true;
            } else {
                acc = next;
            }
        }
        i = i + 1;
    }
    proof {
        assert(s@.subrange(start as int, n as int) =~= body);
    }
    if over {
        None
    } else {
        Some(acc as u32)
    }
}

/// Render a `u32` in decimal, with `parse_u32_spec` reading it back.
pub fn render_u32(v: u32) -> (r: String)
    ensures
        parse_u32_spec(r@) == Some(v),
        r@ == dec_digits(v as int),
{
    let mut out = String::new();
    append_u32(&mut out, v);
    proof {
        assert(out@ =~= dec_digits(v as int));
        lemma_dec_digits_value(v as int);
        assert(out@[0] != '+');
    }
    out
}

} // verus!
