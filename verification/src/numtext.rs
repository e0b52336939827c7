//! Decimal text for the non-negative integer fields of a definition record:
//! rendering a number as digits, parsing digits back, and the lemmas that
//! make the two inverses of each other.

use vstd::prelude::*;
use vstd::arithmetic::div_mod::lemma_fundamental_div_mod;
use vstd::arithmetic::mul::lemma_mul_inequality;

verus! {

/// The character for one decimal digit.
pub open spec fn digit_char(d: int) -> char {
    if d == 0 { '0' }
    else if d == 1 { '1' }
    else if d == 2 { '2' }
    else if d == 3 { '3' }
    else if d == 4 { '4' }
    else if d == 5 { '5' }
    else if d == 6 { '6' }
    else if d == 7 { '7' }
    else if d == 8 { '8' }
    else { '9' }
}

pub open spec fn is_digit_char(c: char) -> bool {
    c == '0' || c == '1' || c == '2' || c == '3' || c == '4'
    || c == '5' || c == '6' || c == '7' || c == '8' || c == '9'
}

/// The numeric value of one digit character.
pub open spec fn digit_val(c: char) -> int {
    if c == '0' { 0 }
    else if c == '1' { 1 }
    else if c == '2' { 2 }
    else if c == '3' { 3 }
    else if c == '4' { 4 }
    else if c == '5' { 5 }
    else if c == '6' { 6 }
    else if c == '7' { 7 }
    else if c == '8' { 8 }
    else { 9 }
}

/// The canonical decimal form of `n`: no sign, no leading zeros.
pub open spec fn dec_chars(n: nat) -> Seq<char>
    decreases n,
{
    if n < 10 {
        seq![digit_char(n as int)]
    } else {
        dec_chars(n / 10) + seq![digit_char((n % 10) as int)]
    }
}

pub open spec fn all_digits(s: Seq<char>) -> bool {
    forall|i: int| 0 <= i < s.len() ==> is_digit_char(#[trigger] s[i])
}

/// The value of a digit string, most significant digit first.
pub open spec fn digits_val(s: Seq<char>) -> nat
    decreases s.len(),
{
    if s.len() == 0 {
        0
    } else {
        (digits_val(s.drop_last()) * 10 + digit_val(s.last())) as nat
    }
}

/// What parsing a decimal field yields: the digits' value, provided the
/// text is non-empty, all digits, and the value fits the machine word.
pub open spec fn parse_uint_spec(s: Seq<char>) -> Option<usize> {
    if s.len() > 0 && all_digits(s) && digits_val(s) <= usize::MAX {
        Some(digits_val(s) as usize)
    } else {
        None
    }
}

/// The canonical decimal form is made of digits and reads back as `n`.
pub proof fn lemma_dec_chars_val(n: nat)
    ensures
        dec_chars(n).len() >= 1,
        all_digits(dec_chars(n)),
        digits_val(dec_chars(n)) == n,
    decreases n,
{
    if n < 10 {
        let s = dec_chars(n);
        assert(s =~= seq![digit_char(n as int)]);
        assert(s.drop_last() =~= Seq::<char>::empty());
        assert(s.last() == digit_char(n as int));
        assert(digit_val(digit_char(n as int)) == n);
        assert(digits_val(s) == digits_val(s.drop_last()) * 10 + digit_val(s.last()));
        assert(digits_val(s.drop_last()) == 0);
    } else {
        lemma_dec_chars_val(n / 10);
        let s = dec_chars(n);
        assert(s =~= dec_chars(n / 10) + seq![digit_char((n % 10) as int)]);
        assert(s.drop_last() =~= dec_chars(n / 10));
        assert(digit_val(digit_char((n % 10) as int)) == n % 10);
        lemma_fundamental_div_mod(n as int, 10);
    }
}

/// Longer digit prefixes never read as smaller values.
pub proof fn lemma_digits_val_take_le(s: Seq<char>, i: int)
    requires
        0 <= i <= s.len(),
    ensures
        digits_val(s.take(i)) <= digits_val(s),
    decreases s.len() - i,
{
    if i == s.len() {
        assert(s.take(i) =~= s);
    } else {
        lemma_digits_val_take_le(s, i + 1);
        assert(s.take(i + 1).drop_last() =~= s.take(i));
        assert(digits_val(s.take(i + 1))
            == digits_val(s.take(i)) * 10 + digit_val(s.take(i + 1).last()));
        assert(digits_val(s.take(i)) <= digits_val(s.take(i)) * 10) by {
            lemma_mul_inequality(1, 10, digits_val(s.take(i)) as int);
        }
    }
}

/// The digit character for a value below ten.
pub fn digit_str(d: u8) -> (r: &'static str)
    requires
        d < 10,
    ensures
        r@ =~= seq![digit_char(d as int)],
{
    if d == 0 { proof { reveal_strlit("0"); } "0" }
    else if d == 1 { proof { reveal_strlit("1"); } "1" }
    else if d == 2 { proof { reveal_strlit("2"); } "2" }
    else if d == 3 { proof { reveal_strlit("3"); } "3" }
    else if d == 4 { proof { reveal_strlit("4"); } "4" }
    else if d == 5 { proof { reveal_strlit("5"); } "5" }
    else if d == 6 { proof { reveal_strlit("6"); } "6" }
    else if d == 7 { proof { reveal_strlit("7"); } "7" }
    else if d == 8 { proof { reveal_strlit("8"); } "8" }
    else { proof { reveal_strlit("9"); } "9" }
}

/// Renders `n` in its canonical decimal form.
pub fn render_uint(n: usize) -> (r: String)
    ensures
        r@ == dec_chars(n as nat),
    decreases n,
{
    if n < 10 {
        digit_str(n as u8).to_owned()
    } else {
        let mut s = render_uint(n / 10);
        s.append(digit_str((n % 10) as u8));
        s
    }
}

/// The numeric value of a digit character, or `None` for any other character.
pub fn digit_of(c: char) -> (r: Option<u8>)
    ensures
        is_digit_char(c) ==> r == Some(digit_val(c) as u8),
        !is_digit_char(c) ==> r is None,
{
    if c == '0' { Some(0) }
    else if c == '1' { Some(1) }
    else if c == '2' { Some(2) }
    else if c == '3' { Some(3) }
    else if c == '4' { Some(4) }
    else if c == '5' { Some(5) }
    else if c == '6' { Some(6) }
    else if c == '7' { Some(7) }
    else if c == '8' { Some(8) }
    else if c == '9' { Some(9) }
    else { None }
}

/// Parses a decimal field: fails on empty text, on any non-digit, and on
/// values over the machine-word maximum, exactly as `parse_uint_spec` says.
pub fn parse_uint(s: &[char]) -> (r: Option<usize>)
    ensures
        r == parse_uint_spec(s@),
{
    if s.len() == 0 {
        return None;
    }
    let mut acc: usize = 0;
    let mut i: usize = 0;
    while i < s.len()
        invariant
            0 < s.len(),
            i <= s.len(),
            all_digits(s@.take(i as int)),
            acc == digits_val(s@.take(i as int)),
        decreases s.len() - i,
    {
        let c = s[i];
        match digit_of(c) {
            None => {
                assert(!is_digit_char(s@[i as int]));
                return None;
            },
            Some(d) => {
                proof {
                    assert(s@.take(i + 1).drop_last() =~= s@.take(i as int));
                    assert(s@.take(i + 1).last() == s@[i as int]);
                }
                let limit = (usize::MAX - d as usize) / 10;
                if acc > limit {
                    proof {
                        let m = usize::MAX as int;
                        let dd = d as int;
                        lemma_fundamental_div_mod(m - dd, 10);
                        lemma_mul_inequality(limit as int + 1, acc as int, 10);
                        assert(acc * 10 + dd > m);
                        assert(digits_val(s@.take(i + 1)) > usize::MAX);
                        lemma_digits_val_take_le(s@, i + 1);
                    }
                    return None;
                }
                proof {
                    let m = usize::MAX as int;
                    let dd = d as int;
                    lemma_fundamental_div_mod(m - dd, 10);
                    lemma_mul_inequality(acc as int, limit as int, 10);
                    assert(acc * 10 + dd <= m);
                }
                acc = acc * 10 + d as usize;
                i = i + 1;
            },
        }
    }
    proof {
        assert(s@.take(s@.len() as int) =~= s@);
    }
    Some(acc)
}

} // verus!
