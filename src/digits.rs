//! Decimal digits: reading them out of text, and the numbers they write.
use vstd::prelude::*;
use vstd::arithmetic::div_mod::{lemma_fundamental_div_mod_converse, lemma_mod_breakdown};

verus! {

/// `c` is one of the ASCII decimal digits `'0'` to `'9'`.
pub open spec fn is_digit_char(c: char) -> bool {
    '0' <= c && c <= '9'
}

/// The value of a decimal digit character.
pub open spec fn digit_value(c: char) -> nat {
    (c as int - '0' as int) as nat
}

/// The character that writes the digit `d` (for `d < 10`).
pub open spec fn digit_char(d: nat) -> char {
    (d + '0' as nat) as char
}

/// Every entry of `d` is a single decimal digit.
pub open spec fn all_digits(d: Seq<nat>) -> bool {
    forall|i: int| 0 <= i < d.len() ==> #[trigger] d[i] < 10
}

/// The values of the digit characters of `s`, in order; every other character is skipped.
pub open spec fn digits_of(s: Seq<char>) -> Seq<nat>
    decreases s.len(),
{
    if s.len() == 0 {
        seq![]
    } else {
        let rest = digits_of(s.drop_last());
        if is_digit_char(s.last()) {
            rest.push(digit_value(s.last()))
        } else {
            rest
        }
    }
}

/// Ten to the power `k`.
pub open spec fn pow10(k: nat) -> nat
    decreases k,
{
    if k == 0 {
        1
    } else {
        10 * pow10((k - 1) as nat)
    }
}

/// The number written by the digits `d`, most significant first.
pub open spec fn value_of(d: Seq<nat>) -> nat
    decreases d.len(),
{
    if d.len() == 0 {
        0
    } else {
        value_of(d.drop_last()) * 10 + d.last()
    }
}

/// The last `k` decimal digits of `n`, most significant first, zero-padded to width `k`.
pub open spec fn padded_digits(n: nat, k: nat) -> Seq<nat>
    decreases k,
{
    if k == 0 {
        seq![]
    } else {
        padded_digits(n / 10, (k - 1) as nat).push(n % 10)
    }
}

/// The decimal form of `n`, without leading zeros (`"0"` for zero).
pub open spec fn decimal_of(n: nat) -> Seq<char>
    decreases n,
{
    if n < 10 {
        seq![digit_char(n)]
    } else {
        decimal_of(n / 10).push(digit_char(n % 10))
    }
}

/// The characters that write the digits `d`.
pub open spec fn digit_chars(d: Seq<nat>) -> Seq<char> {
    d.map_values(|x: nat| digit_char(x))
}

// ---------------------------------------------------------------------------
// Facts about digits and decimal values.

/// A digit character and its value determine each other.
pub proof fn lemma_digit_value_char(c: char)
    requires
        is_digit_char(c),
    ensures
        digit_value(c) < 10,
        digit_char(digit_value(c)) == c,
{
}

/// Powers of ten are positive.
pub proof fn lemma_pow10_positive(k: nat)
    ensures
        pow10(k) >= 1,
    decreases k,
{
    if k > 0 {
        lemma_pow10_positive((k - 1) as nat);
    }
}

/// Powers of ten grow with the exponent.
pub proof fn lemma_pow10_monotone(j: nat, k: nat)
    requires
        j <= k,
    ensures
        pow10(j) <= pow10(k),
    decreases k,
{
    if j < k {
        lemma_pow10_monotone(j, (k - 1) as nat);
        lemma_pow10_positive((k - 1) as nat);
    }
}

/// The powers of ten that bound an eleven-digit number.
pub proof fn lemma_pow10_eleven()
    ensures
        pow10(11) == 100_000_000_000,
        pow10(10) == 10_000_000_000,
{
    reveal_with_fuel(pow10, 12);
}

/// A number written with `d.len()` digits is below `10^d.len()`.
pub proof fn lemma_value_of_bound(d: Seq<nat>)
    requires
        all_digits(d),
    ensures
        value_of(d) < pow10(d.len()),
    decreases d.len(),
{
    if d.len() > 0 {
        let p = d.drop_last();
        assert(all_digits(p)) by {
            assert forall|i: int| 0 <= i < p.len() implies #[trigger] p[i] < 10 by {
                assert(p[i] == d[i]);
            }
        }
        lemma_value_of_bound(p);
        assert(d.last() < 10) by {
            assert(d[d.len() - 1] < 10);
        }
        assert(value_of(p) * 10 + d.last() < pow10(d.len())) by (nonlinear_arith)
            requires
                value_of(p) < pow10(p.len()),
                d.last() < 10,
                pow10(d.len()) == 10 * pow10(p.len()),
        ;
    }
}

/// The padded digits of `n` are digits, `k` of them.
pub proof fn lemma_padded_digits_shape(n: nat, k: nat)
    ensures
        padded_digits(n, k).len() == k,
        all_digits(padded_digits(n, k)),
    decreases k,
{
    if k > 0 {
        lemma_padded_digits_shape(n / 10, (k - 1) as nat);
        let d = padded_digits(n, k);
        assert forall|i: int| 0 <= i < d.len() implies #[trigger] d[i] < 10 by {
            if i < k - 1 {
                assert(d[i] == padded_digits(n / 10, (k - 1) as nat)[i]);
            }
        }
    }
}

/// Reading back the last `k` digits of `n` gives `n` modulo `10^k`.
pub proof fn lemma_value_of_padded(n: nat, k: nat)
    ensures
        value_of(padded_digits(n, k)) == n % pow10(k),
    decreases k,
{
    if k == 0 {
    } else {
        let d = padded_digits(n, k);
        assert(d.drop_last() =~= padded_digits(n / 10, (k - 1) as nat));
        lemma_value_of_padded(n / 10, (k - 1) as nat);
        lemma_pow10_positive((k - 1) as nat);
        lemma_mod_breakdown(n as int, 10, pow10((k - 1) as nat) as int);
    }
}

/// Writing the value of `d` zero-padded to `d.len()` digits gives `d` back.
pub proof fn lemma_padded_of_value(d: Seq<nat>)
    requires
        all_digits(d),
    ensures
        padded_digits(value_of(d), d.len()) == d,
    decreases d.len(),
{
    if d.len() > 0 {
        let p = d.drop_last();
        assert(all_digits(p)) by {
            assert forall|i: int| 0 <= i < p.len() implies #[trigger] p[i] < 10 by {
                assert(p[i] == d[i]);
            }
        }
        lemma_padded_of_value(p);
        assert(d.last() < 10) by {
            assert(d[d.len() - 1] < 10);
        }
        lemma_fundamental_div_mod_converse(
            value_of(d) as int,
            10,
            value_of(p) as int,
            d.last() as int,
        );
        assert(padded_digits(value_of(d), d.len()) =~= d);
    }
}

/// The digits of a concatenation are the digits of each part, in order.
pub proof fn lemma_digits_of_concat(a: Seq<char>, b: Seq<char>)
    ensures
        digits_of(a + b) == digits_of(a) + digits_of(b),
    decreases b.len(),
{
    if b.len() == 0 {
        assert(a + b =~= a);
        assert(digits_of(a) + digits_of(b) =~= digits_of(a));
    } else {
        assert((a + b).drop_last() =~= a + b.drop_last());
        lemma_digits_of_concat(a, b.drop_last());
        assert((a + b).last() == b.last());
        if is_digit_char(b.last()) {
            assert(digits_of(a) + digits_of(b) =~= (digits_of(a) + digits_of(b.drop_last())).push(
                digit_value(b.last()),
            ));
        }
    }
}

/// A string has at most as many digits as characters, and as many only when every
/// character is a digit.
pub proof fn lemma_digits_of_len(s: Seq<char>)
    ensures
        digits_of(s).len() <= s.len(),
        digits_of(s).len() == s.len() ==> forall|i: int|
            0 <= i < s.len() ==> is_digit_char(#[trigger] s[i]),
    decreases s.len(),
{
    if s.len() > 0 {
        lemma_digits_of_len(s.drop_last());
        if digits_of(s).len() == s.len() {
            assert forall|i: int| 0 <= i < s.len() implies is_digit_char(#[trigger] s[i]) by {
                if i < s.len() - 1 {
                    assert(s[i] == s.drop_last()[i]);
                }
            }
        }
    }
}

/// In a string made of digits only, the digits are read one per character.
pub proof fn lemma_digits_of_all_digit_chars(s: Seq<char>)
    requires
        forall|i: int| 0 <= i < s.len() ==> is_digit_char(#[trigger] s[i]),
    ensures
        digits_of(s) == s.map_values(|c: char| digit_value(c)),
    decreases s.len(),
{
    if s.len() > 0 {
        let p = s.drop_last();
        assert forall|i: int| 0 <= i < p.len() implies is_digit_char(#[trigger] p[i]) by {
            assert(p[i] == s[i]);
        }
        lemma_digits_of_all_digit_chars(p);
        assert(is_digit_char(s[s.len() - 1]));
        assert(digits_of(s) =~= s.map_values(|c: char| digit_value(c)));
    }
}

/// A single character that is not a digit gives no digit.
pub proof fn lemma_digits_of_non_digit(c: char)
    requires
        !is_digit_char(c),
    ensures
        digits_of(seq![c]) == Seq::<nat>::empty(),
{
    let s = seq![c];
    assert(s.drop_last() =~= Seq::<char>::empty());
    assert(s.last() == c);
    assert(digits_of(s.drop_last()) =~= Seq::<nat>::empty());
}

} // verus!
