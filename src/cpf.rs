//! The CPF number: its rules, and the value type that only ever holds a valid one.
use vstd::prelude::*;
use crate::digits::{
    all_digits, decimal_of, digit_char, digit_chars, digit_value, digits_of, is_digit_char,
    lemma_padded_digits_shape, lemma_padded_of_value, lemma_value_of_padded, lemma_pow10_eleven, lemma_pow10_monotone, lemma_value_of_bound,
    padded_digits, pow10, value_of,
};

verus! {

// ---------------------------------------------------------------------------
// The rules of a CPF number.

/// `sum_{i < n} (top - i) * d[i]`: the digits weighted by strictly decreasing weights,
/// starting from `top`.
pub open spec fn weighted_sum(d: Seq<nat>, n: nat, top: nat) -> int
    decreases n,
{
    if n == 0 {
        0
    } else {
        weighted_sum(d, (n - 1) as nat, top) + (top - (n - 1)) * d[n - 1]
    }
}

/// The reduction of a weighted sum to a check digit: `(sum * 10) mod 11`, where 10 counts as 0.
pub open spec fn reduce(sum: int) -> nat {
    let r = (sum * 10) % 11;
    if r == 10 {
        0
    } else {
        r as nat
    }
}

/// The first verifier digit owed by the nine leading digits.
pub open spec fn first_check(d: Seq<nat>) -> nat {
    reduce(weighted_sum(d, 9, 10))
}

/// The second verifier digit owed by the ten leading digits.
pub open spec fn second_check(d: Seq<nat>) -> nat {
    reduce(weighted_sum(d, 10, 11))
}

/// All entries of `d` are the same.
pub open spec fn all_same(d: Seq<nat>) -> bool {
    forall|i: int| 0 <= i < d.len() ==> #[trigger] d[i] == d[0]
}

/// Eleven digits that form a CPF number: not all the same, and both verifier digits right.
pub open spec fn valid_digits(d: Seq<nat>) -> bool {
    &&& d.len() == 11
    &&& !all_same(d)
    &&& d[9] == first_check(d)
    &&& d[10] == second_check(d)
}

/// The number `n` is a CPF number: it has at most eleven digits, and those eleven digits,
/// zero-padded, are valid.
pub open spec fn is_valid_value(n: nat) -> bool {
    n < pow10(11) && valid_digits(padded_digits(n, 11))
}

/// `s` has the punctuated shape `DDD.DDD.DDD-DD` as far as the separators go.
pub open spec fn has_separators(s: Seq<char>) -> bool {
    &&& s.len() == 14
    &&& s[3] == '.'
    &&& s[7] == '.'
    &&& s[11] == '-'
}

/// The length and separator checks: eleven characters, or fourteen with the separators in place.
pub open spec fn has_valid_shape(s: Seq<char>) -> bool {
    s.len() == 11 || has_separators(s)
}

/// The text `s` is accepted as a CPF number.
pub open spec fn accepts(s: Seq<char>) -> bool {
    has_valid_shape(s) && valid_digits(digits_of(s))
}

/// `AAA.BBB.CCC-DD` for the eleven characters `g`.
pub open spec fn punctuate(g: Seq<char>) -> Seq<char> {
    g.subrange(0, 3) + seq!['.'] + g.subrange(3, 6) + seq!['.'] + g.subrange(6, 9) + seq!['-']
        + g.subrange(9, 11)
}

/// The canonical form of `n`: its eleven digits, zero-padded, punctuated.
pub open spec fn display_of(n: nat) -> Seq<char> {
    punctuate(digit_chars(padded_digits(n, 11)))
}

/// The values of a vector of digits.
pub open spec fn nats(v: Seq<u32>) -> Seq<nat> {
    v.map_values(|x: u32| x as nat)
}

// ---------------------------------------------------------------------------
// The value type.

/// A valid CPF number, held as the number its eleven digits write. Equality, order and hash
/// follow that number.
#[derive(Copy, Clone, Eq, PartialEq, Ord, PartialOrd, Hash, Debug)]
pub struct Cpf {
    inner: u64,
}

/// The error of every failed construction of a [`Cpf`].
#[derive(Copy, Clone, Eq, PartialEq, Ord, PartialOrd, Hash, Debug)]
#[non_exhaustive]
pub enum ParseCpfError {
    Invalid,
}

/// A `Cpf` is viewed as the number it holds.
impl View for Cpf {
    type V = nat;

    closed spec fn view(&self) -> nat {
        self.inner as nat
    }
}

/// The digit that `c` writes, if it is an ASCII decimal digit.
fn char_digit(c: char) -> (r: Option<u32>)
    ensures
        r is Some <==> is_digit_char(c),
        r matches Some(d) ==> d as nat == digit_value(c) && d < 10,
{
    if c >= '0' && c <= '9' {
        Some(c as u32 - '0' as u32)
    } else {
        None
    }
}

/// The one-character text that writes the digit `d`.
fn digit_str(d: u32) -> (r: &'static str)
    requires
        d < 10,
    ensures
        r@ == seq![digit_char(d as nat)],
{
    let all = "0123456789";
    proof {
        reveal_strlit("0123456789");
    }
    assert(all.is_ascii());
    all.substring_ascii(d as usize, d as usize + 1)
}

/// `sum_{i < count} (top - i) * numbers[i]`.
fn weighted_sum_of(numbers: &Vec<u32>, count: usize, top: u32) -> (r: u32)
    requires
        count <= numbers.len(),
        count <= top <= 11,
        all_digits(nats(numbers@)),
    ensures
        r == weighted_sum(nats(numbers@), count as nat, top as nat),
        r <= 99 * count,
{
    let ghost d = nats(numbers@);
    let mut sum: u32 = 0;
    for i in 0..count
        invariant
            count <= numbers.len(),
            count <= top <= 11,
            d == nats(numbers@),
            all_digits(d),
            sum == weighted_sum(d, i as nat, top as nat),
            sum <= 99 * i,
    {
        let w = top - i as u32;
        let x = numbers[i];
        assert(d[i as int] == x as nat);
        assert(x < 10);
        assert(w * x <= 99) by (nonlinear_arith)
            requires
                w <= 11,
                x < 10,
        ;
        sum = sum + w * x;
    }
    sum
}

/// Appends the last `k` decimal digits of `n`, most significant first, zero-padded.
fn push_padded_digits(n: u64, k: usize, out: &mut Vec<u32>)
    requires
        k <= 11,
    ensures
        nats(final(out)@) == nats(old(out)@) + padded_digits(n as nat, k as nat),
    decreases k,
{
    if k > 0 {
        push_padded_digits(n / 10, k - 1, out);
        let ghost before = nats(out@);
        out.push((n % 10) as u32);
        assert(nats(out@) =~= before.push((n % 10) as nat));
        assert(nats(out@) =~= nats(old(out)@) + padded_digits(n as nat, k as nat));
    } else {
        assert(nats(out@) =~= nats(old(out)@) + padded_digits(n as nat, k as nat));
    }
}

/// The eleven digits of `n`, zero-padded.
fn padded_digits_of(n: u64) -> (r: Vec<u32>)
    ensures
        nats(r@) == padded_digits(n as nat, 11),
        r.len() == 11,
        all_digits(nats(r@)),
{
    let mut numbers: Vec<u32> = Vec::new();
    push_padded_digits(n, 11, &mut numbers);
    proof {
        assert(nats(numbers@) =~= padded_digits(n as nat, 11));
        lemma_padded_digits_shape(n as nat, 11);
    }
    numbers
}

/// Appends the decimal form of `n`, without leading zeros.
fn push_decimal(n: u64, out: &mut String)
    ensures
        final(out)@ == old(out)@ + decimal_of(n as nat),
    decreases n,
{
    if n >= 10 {
        push_decimal(n / 10, out);
    }
    out.append(digit_str((n % 10) as u32));
    assert(final(out)@ =~= old(out)@ + decimal_of(n as nat));
}

impl Cpf {
    #[verifier::type_invariant]
    spec fn well_formed(self) -> bool {
        is_valid_value(self.inner as nat)
    }

    /// Reduces a weighted sum to a check digit.
    fn sum_to_digit(sum: u32) -> (r: u32)
        requires
            sum <= u32::MAX / 10,
        ensures
            r == reduce(sum as int),
    {
        let digit = sum * 10 % 11;
        if digit == 10 {
            0
        } else {
            digit
        }
    }

    /// The first verifier digit owed by the nine leading digits of `numbers`.
    fn first_verifier_digit(numbers: &Vec<u32>) -> (r: u32)
        requires
            numbers.len() >= 9,
            all_digits(nats(numbers@)),
        ensures
            r == first_check(nats(numbers@)),
    {
        let sum = weighted_sum_of(numbers, 9, 10);
        Self::sum_to_digit(sum)
    }

    /// The second verifier digit owed by the ten leading digits of `numbers`.
    fn second_verifier_digit(numbers: &Vec<u32>) -> (r: u32)
        requires
            numbers.len() >= 10,
            all_digits(nats(numbers@)),
        ensures
            r == second_check(nats(numbers@)),
    {
        let sum = weighted_sum_of(numbers, 10, 11);
        Self::sum_to_digit(sum)
    }

    /// Succeeds when `got` is the first verifier digit that `numbers` owe.
    fn check_first_verifier_digit(numbers: &Vec<u32>, got: u32) -> (r: Result<(), ParseCpfError>)
        requires
            numbers.len() >= 9,
            all_digits(nats(numbers@)),
        ensures
            r is Ok <==> got == first_check(nats(numbers@)),
            r matches Err(e) ==> e == ParseCpfError::Invalid,
    {
        let calculated = Self::first_verifier_digit(numbers);
        if got != calculated {
            Err(ParseCpfError::Invalid)
        } else {
            Ok(())
        }
    }

    /// Succeeds when `got` is the second verifier digit that `numbers` owe.
    fn check_second_verifier_digit(numbers: &Vec<u32>, got: u32) -> (r: Result<(), ParseCpfError>)
        requires
            numbers.len() >= 10,
            all_digits(nats(numbers@)),
        ensures
            r is Ok <==> got == second_check(nats(numbers@)),
            r matches Err(e) ==> e == ParseCpfError::Invalid,
    {
        let calculated = Self::second_verifier_digit(numbers);
        if got != calculated {
            Err(ParseCpfError::Invalid)
        } else {
            Ok(())
        }
    }

    /// Checks eleven digits against the rules, and packs them into a [`Cpf`].
    fn new(numbers: &Vec<u32>) -> (r: Result<Cpf, ParseCpfError>)
        requires
            numbers.len() == 11,
            all_digits(nats(numbers@)),
        ensures
            r is Ok <==> valid_digits(nats(numbers@)),
            r matches Ok(c) ==> c@ == value_of(nats(numbers@)),
            r matches Err(e) ==> e == ParseCpfError::Invalid,
    {
        let ghost d = nats(numbers@);
        let first_verifier_digit = numbers[9];
        let mut all_equals = true;
        for i in 0..11
            invariant
                numbers.len() == 11,
                d == nats(numbers@),
                first_verifier_digit == d[9],
                all_equals <==> forall|j: int| 0 <= j < i ==> #[trigger] d[j] == d[9],
        {
            assert(d[i as int] == numbers[i as int] as nat);
            if numbers[i] != first_verifier_digit {
                all_equals = false;
            }
        }
        if all_equals {
            assert(all_same(d)) by {
                assert forall|j: int| 0 <= j < d.len() implies #[trigger] d[j] == d[0] by {
                    assert(d[j] == d[9] && d[0] == d[9]);
                }
            }
            return Err(ParseCpfError::Invalid);
        }
        assert(!all_same(d)) by {
            let j = choose|j: int| 0 <= j < 11 && #[trigger] d[j] != d[9];
            assert(d[j] != d[9]);
        }
        if Self::check_first_verifier_digit(numbers, numbers[9]).is_err() {
            return Err(ParseCpfError::Invalid);
        }
        if Self::check_second_verifier_digit(numbers, numbers[10]).is_err() {
            return Err(ParseCpfError::Invalid);
        }
        let mut value: u64 = 0;
        for i in 0..11
            invariant
                numbers.len() == 11,
                d == nats(numbers@),
                all_digits(d),
                value == value_of(d.take(i as int)),
                value < pow10(i as nat),
        {
            proof {
                assert(d.take(i + 1).drop_last() =~= d.take(i as int));
                assert(d[i as int] < 10);
                lemma_pow10_monotone((i + 1) as nat, 11);
                lemma_pow10_eleven();
                assert(value * 10 + d[i as int] < pow10((i + 1) as nat)) by (nonlinear_arith)
                    requires
                        value < pow10(i as nat),
                        d[i as int] < 10,
                        pow10((i + 1) as nat) == 10 * pow10(i as nat),
                ;
            }
            value = value * 10 + numbers[i] as u64;
        }
        proof {
            assert(d.take(11) =~= d);
            lemma_padded_of_value(d);
            lemma_value_of_bound(d);
        }
        Ok(Cpf { inner: value })
    }

    /// Parses a CPF number written as eleven digits (`98484485439`) or punctuated
    /// (`984.844.854-39`).
    pub fn parse(s: &str) -> (r: Result<Cpf, ParseCpfError>)
        ensures
            r is Ok <==> accepts(s@),
            r matches Ok(c) ==> c@ == value_of(digits_of(s@)),
            r matches Err(e) ==> e == ParseCpfError::Invalid,
    {
        let len = s.unicode_len();
        if len != 11 && len != 14 {
            return Err(ParseCpfError::Invalid);
        }
        if len == 14 {
            if s.get_char(3) != '.' || s.get_char(7) != '.' || s.get_char(11) != '-' {
                return Err(ParseCpfError::Invalid);
            }
        }
        let mut numbers: Vec<u32> = Vec::new();
        for i in 0..len
            invariant
                len == s@.len(),
                nats(numbers@) == digits_of(s@.take(i as int)),
                all_digits(nats(numbers@)),
                numbers.len() <= i,
        {
            let c = s.get_char(i);
            let ghost before = nats(numbers@);
            assert(s@.take(i + 1).drop_last() =~= s@.take(i as int));
            assert(s@.take(i + 1).last() == c);
            match char_digit(c) {
                Some(d) => {
                    numbers.push(d);
                    assert(nats(numbers@) =~= before.push(d as nat));
                },
                None => {},
            }
        }
        assert(s@.take(len as int) =~= s@);
        if numbers.len() != 11 {
            return Err(ParseCpfError::Invalid);
        }
        Self::new(&numbers)
    }

    /// The CPF number `value`, zero-padded to eleven digits.
    pub fn try_from(value: u64) -> (r: Result<Cpf, ParseCpfError>)
        ensures
            r is Ok <==> is_valid_value(value as nat),
            r matches Ok(c) ==> c@ == value,
            r matches Err(e) ==> e == ParseCpfError::Invalid,
    {
        proof {
            lemma_pow10_eleven();
        }
        if value >= 100_000_000_000 {
            return Err(ParseCpfError::Invalid);
        }
        let numbers = padded_digits_of(value);
        proof {
            lemma_value_of_padded(value as nat, 11);
        }
        Self::new(&numbers)
    }

    /// The canonical form `AAA.BBB.CCC-DD`.
    pub fn to_display_string(&self) -> (r: String)
        ensures
            r@ == display_of(self@),
    {
        proof {
            use_type_invariant(self);
        }
        let numbers = padded_digits_of(self.inner);
        let ghost g = digit_chars(nats(numbers@));
        let mut padded = String::new();
        for i in 0..11
            invariant
                numbers.len() == 11,
                all_digits(nats(numbers@)),
                g == digit_chars(nats(numbers@)),
                padded@ == g.take(i as int),
        {
            assert(nats(numbers@)[i as int] == numbers[i as int] as nat);
            padded.append(digit_str(numbers[i]));
            assert(padded@ =~= g.take(i + 1));
        }
        assert(padded@ =~= g);
        let text = padded.as_str();
        assert(text.is_ascii()) by {
            assert forall|i: int| 0 <= i < g.len() implies '\0' <= #[trigger] g[i] <= '\u{7f}' by {
                assert(nats(numbers@)[i] < 10);
            }
        }
        proof {
            reveal_strlit(".");
            reveal_strlit("-");
        }
        let mut out = String::new();
        out.append(text.substring_ascii(0, 3));
        out.append(".");
        out.append(text.substring_ascii(3, 6));
        out.append(".");
        out.append(text.substring_ascii(6, 9));
        out.append("-");
        out.append(text.substring_ascii(9, 11));
        assert(out@ =~= punctuate(g));
        out
    }

    /// The number in decimal, without leading zeros.
    pub fn numbers_as_string(self) -> (r: String)
        ensures
            r@ == decimal_of(self@),
    {
        let mut out = String::new();
        push_decimal(self.inner, &mut out);
        assert(out@ =~= decimal_of(self@));
        out
    }

    /// The number itself.
    pub fn to_u64(self) -> (r: u64)
        ensures
            r == self@,
            is_valid_value(r as nat),
    {
        proof {
            use_type_invariant(self);
        }
        self.inner
    }
}

impl core::str::FromStr for Cpf {
    type Err = ParseCpfError;

    fn from_str(s: &str) -> Result<Cpf, ParseCpfError> {
        Cpf::parse(s)
    }
}

} // verus!
