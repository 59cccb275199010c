//! Decimal rendering of integers, plus the zero-padded forms used when
//! probing rendered page filenames.

use vstd::prelude::*;
use crate::text::push_char;
use vstd::string::StringExecFns;
use vstd::string::StrSliceExecFns;

verus! {

/// The character for one decimal digit.
pub open spec fn digit_char(d: nat) -> char
    recommends
        d < 10,
{
    ((d + 48) as u8) as char
}

/// The decimal digits of a natural number, most significant first.
pub open spec fn dec_digits(n: nat) -> Seq<char>
    decreases n,
{
    if n < 10 {
        seq![digit_char(n)]
    } else {
        dec_digits(n / 10).push(digit_char(n % 10))
    }
}

/// The decimal rendering of an integer, with a leading minus sign when
/// negative.
pub open spec fn int_dec(n: int) -> Seq<char> {
    if n >= 0 {
        dec_digits(n as nat)
    } else {
        seq!['-'] + dec_digits((-n) as nat)
    }
}

/// A character repeated `k` times.
pub open spec fn repeat_char(c: char, k: int) -> Seq<char>
    decreases k,
{
    if k <= 0 {
        Seq::empty()
    } else {
        repeat_char(c, k - 1).push(c)
    }
}

/// [`dec_digits`] left-padded with zeros to at least `w` characters.
pub open spec fn dec_padded(n: nat, w: nat) -> Seq<char> {
    if dec_digits(n).len() >= w {
        dec_digits(n)
    } else {
        repeat_char('0', w - dec_digits(n).len()) + dec_digits(n)
    }
}

/// A decimal digit character.
pub open spec fn is_digit(c: char) -> bool {
    '0' <= c && c <= '9'
}

/// Every character of the sequence is a decimal digit.
pub open spec fn all_digits(ds: Seq<char>) -> bool {
    forall|i: int| 0 <= i < ds.len() ==> is_digit(#[trigger] ds[i])
}

/// The value of a string of decimal digits.
pub open spec fn digits_val(ds: Seq<char>) -> int
    decreases ds.len(),
{
    if ds.len() == 0 {
        0
    } else {
        digits_val(ds.drop_last()) * 10 + (ds.last() as int - 48)
    }
}

/// The decimal rendering of a natural number is made of digits and is
/// never empty.
pub proof fn lemma_dec_digits_are_digits(n: nat)
    ensures
        all_digits(dec_digits(n)),
        dec_digits(n).len() >= 1,
    decreases n,
{
    if n < 10 {
        assert(dec_digits(n) =~= seq![digit_char(n)]);
        assert(is_digit(digit_char(n)));
    } else {
        lemma_dec_digits_are_digits(n / 10);
        assert forall|i: int| 0 <= i < dec_digits(n).len() implies is_digit(
            #[trigger] dec_digits(n)[i],
        ) by {
            if i < dec_digits(n).len() - 1 {
                assert(dec_digits(n)[i] == dec_digits(n / 10)[i]);
            } else {
                assert(dec_digits(n)[i] == digit_char(n % 10));
                assert(is_digit(digit_char(n % 10)));
            }
        }
    }
}

/// Reading the decimal rendering back gives the number.
pub proof fn lemma_digits_val_of_dec(n: nat)
    ensures
        digits_val(dec_digits(n)) == n,
    decreases n,
{
    if n < 10 {
        assert(dec_digits(n) =~= seq![digit_char(n)]);
        assert(seq![digit_char(n)].drop_last() =~= Seq::<char>::empty());
        assert(digits_val(Seq::<char>::empty()) == 0);
        assert(digits_val(seq![digit_char(n)]) == digit_char(n) as int - 48);
        assert(digit_char(n) as int == n + 48) by {
            assert(digit_char(n) == ((n + 48) as u8) as char);
        }
    } else {
        lemma_digits_val_of_dec(n / 10);
        assert(dec_digits(n).drop_last() =~= dec_digits(n / 10));
        assert(dec_digits(n).last() == digit_char(n % 10));
        assert(digit_char(n % 10) as int == n % 10 + 48) by {
            assert(digit_char(n % 10) == (((n % 10) + 48) as u8) as char);
        }
    }
}

/// The value of a digit string is non-negative.
pub proof fn lemma_digits_val_nonneg(ds: Seq<char>)
    requires
        all_digits(ds),
    ensures
        digits_val(ds) >= 0,
    decreases ds.len(),
{
    if ds.len() > 0 {
        assert(all_digits(ds.drop_last())) by {
            assert(forall|i: int|
                0 <= i < ds.drop_last().len() ==> ds.drop_last()[i] == ds[i]);
        }
        lemma_digits_val_nonneg(ds.drop_last());
        assert(ds.last() as int - 48 >= 0) by {
            assert(is_digit(ds[ds.len() - 1]));
        }
    }
}

/// A prefix of a digit string is worth no more than the whole.
pub proof fn lemma_digits_val_prefix(ds: Seq<char>, k: int)
    requires
        all_digits(ds),
        0 <= k <= ds.len(),
    ensures
        digits_val(ds.take(k)) <= digits_val(ds),
    decreases ds.len(),
{
    if k == ds.len() {
        assert(ds.take(k) =~= ds);
    } else {
        assert(all_digits(ds.drop_last())) by {
            assert(forall|i: int|
                0 <= i < ds.drop_last().len() ==> ds.drop_last()[i] == ds[i]);
        }
        assert(ds.take(k) =~= ds.drop_last().take(k));
        lemma_digits_val_prefix(ds.drop_last(), k);
        lemma_digits_val_nonneg(ds.drop_last());
        assert(ds.last() as int - 48 >= 0) by {
            assert(is_digit(ds[ds.len() - 1]));
        }
        assert(digits_val(ds) >= digits_val(ds.drop_last()));
    }
}

/// Renders a `u64` in decimal.
pub fn u64_to_dec(n: u64) -> (r: String)
    ensures
        r@ == dec_digits(n as nat),
    decreases n,
{
    if n < 10 {
        let mut s = String::new();
        push_char(&mut s, ((n as u8) + 48) as char);
        proof {
            assert(s@ =~= seq![digit_char(n as nat)]);
        }
        s
    } else {
        let mut s = u64_to_dec(n / 10);
        push_char(&mut s, (((n % 10) as u8) + 48) as char);
        s
    }
}

/// Renders an `i64` in decimal, with a minus sign when negative.
pub fn i64_to_dec(n: i64) -> (r: String)
    ensures
        r@ == int_dec(n as int),
{
    if n >= 0 {
        u64_to_dec(n as u64)
    } else {
        let mag: u64 = ((-(n + 1)) as u64) + 1;
        proof {
            assert(mag as nat == (-(n as int)) as nat);
        }
        let digits = u64_to_dec(mag);
        let mut s = String::new();
        push_char(&mut s, '-');
        s.append(digits.as_str());
        proof {
            assert(s@ =~= seq!['-'] + dec_digits((-(n as int)) as nat));
        }
        s
    }
}

/// Renders a `u64` in decimal, left-padded with zeros to at least `w`
/// characters.
pub fn u64_to_dec_padded(n: u64, w: usize) -> (r: String)
    ensures
        r@ == dec_padded(n as nat, w as nat),
{
    let digits = u64_to_dec(n);
    let len = digits.as_str().unicode_len();
    if len >= w {
        return digits;
    }
    let mut s = String::new();
    let mut k: usize = 0;
    while k < w - len
        invariant
            len < w,
            len == dec_digits(n as nat).len(),
            0 <= k <= w - len,
            s@ =~= repeat_char('0', k as int),
        decreases w - len - k,
    {
        push_char(&mut s, '0');
        k += 1;
    }
    s.append(digits.as_str());
    proof {
        assert(s@ =~= repeat_char('0', (w - len) as int) + dec_digits(n as nat));
    }
    s
}

} // verus!
