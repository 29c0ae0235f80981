//! What holds across parsing, constructing and formatting CPF numbers.
use vstd::prelude::*;
use crate::cpf::{
    accepts, display_of, has_separators, is_valid_value, punctuate, valid_digits, weighted_sum,
};
use crate::digits::{
    all_digits, digit_char, digit_chars, digit_value, digits_of, is_digit_char,
    lemma_digits_of_all_digit_chars, lemma_digits_of_concat,
    lemma_digit_value_char, lemma_digits_of_len, lemma_digits_of_non_digit, lemma_padded_digits_shape,
    lemma_padded_of_value, lemma_pow10_positive, lemma_value_of_padded, padded_digits, pow10,
    value_of,
};

verus! {

/// Punctuation adds no digit: the punctuated form of eleven characters holds the same
/// digits as the characters themselves.
pub proof fn lemma_punctuate_keeps_digits(g: Seq<char>)
    requires
        g.len() == 11,
    ensures
        has_separators(punctuate(g)),
        digits_of(punctuate(g)) == digits_of(g),
{
    let a = g.subrange(0, 3);
    let b = g.subrange(3, 6);
    let c = g.subrange(6, 9);
    let e = g.subrange(9, 11);
    let dot = seq!['.'];
    let dash = seq!['-'];
    lemma_digits_of_non_digit('.');
    lemma_digits_of_non_digit('-');
    lemma_digits_of_concat(a, dot);
    lemma_digits_of_concat(a + dot, b);
    lemma_digits_of_concat(a + dot + b, dot);
    lemma_digits_of_concat(a + dot + b + dot, c);
    lemma_digits_of_concat(a + dot + b + dot + c, dash);
    lemma_digits_of_concat(a + dot + b + dot + c + dash, e);
    lemma_digits_of_concat(a, b);
    lemma_digits_of_concat(a + b, c);
    lemma_digits_of_concat(a + b + c, e);
    assert(g =~= a + b + c + e);
    assert(digits_of(a) + digits_of(dot) =~= digits_of(a));
    assert(digits_of(a + dot + b) + digits_of(dot) =~= digits_of(a + dot + b));
    assert(digits_of(a + dot + b + dot + c) + digits_of(dash) =~= digits_of(a + dot + b + dot + c));
    assert(digits_of(punctuate(g)) =~= digits_of(g));
}

/// The eleven characters of a punctuated text, with its separators taken out.
pub open spec fn unpunctuate(s: Seq<char>) -> Seq<char> {
    s.subrange(0, 3) + s.subrange(4, 7) + s.subrange(8, 11) + s.subrange(12, 14)
}

/// A text with its separators in place and eleven digits is made of digits around the
/// separators.
pub proof fn lemma_punctuated_text(s: Seq<char>)
    requires
        has_separators(s),
        digits_of(s).len() == 11,
    ensures
        unpunctuate(s).len() == 11,
        punctuate(unpunctuate(s)) == s,
        forall|i: int| 0 <= i < 11 ==> is_digit_char(#[trigger] unpunctuate(s)[i]),
        digits_of(s) == unpunctuate(s).map_values(|c: char| digit_value(c)),
{
    let g = unpunctuate(s);
    assert(punctuate(g) =~= s);
    lemma_punctuate_keeps_digits(g);
    lemma_digits_of_len(g);
    lemma_digits_of_all_digit_chars(g);
}

/// Reading digit characters and writing them again gives the same characters.
proof fn lemma_digit_chars_of_values(g: Seq<char>)
    requires
        forall|i: int| 0 <= i < g.len() ==> is_digit_char(#[trigger] g[i]),
    ensures
        digit_chars(g.map_values(|c: char| digit_value(c))) == g,
        all_digits(g.map_values(|c: char| digit_value(c))),
{
    let d = g.map_values(|c: char| digit_value(c));
    assert forall|i: int| 0 <= i < d.len() implies #[trigger] d[i] < 10 by {
        assert(is_digit_char(g[i]));
    }
    assert forall|i: int| 0 <= i < g.len() implies #[trigger] digit_chars(d)[i] == g[i] by {
        assert(is_digit_char(g[i]));
    }
    assert(digit_chars(d) =~= g);
}

/// Writing digits as characters and reading them again gives the same digits.
proof fn lemma_digit_values_of_chars(d: Seq<nat>)
    requires
        all_digits(d),
    ensures
        forall|i: int| 0 <= i < d.len() ==> is_digit_char(#[trigger] digit_chars(d)[i]),
        digit_chars(d).map_values(|c: char| digit_value(c)) == d,
{
    assert forall|i: int| 0 <= i < d.len() implies is_digit_char(#[trigger] digit_chars(d)[i]) by {
        assert(d[i] < 10);
    }
    let v = digit_chars(d).map_values(|c: char| digit_value(c));
    assert forall|i: int| 0 <= i < d.len() implies #[trigger] v[i] == d[i] by {
        assert(d[i] < 10);
    }
    assert(v =~= d);
}

/// Round trip from text: a valid CPF number written in the punctuated form is accepted, and
/// its canonical form is that same text.
pub proof fn lemma_canonical_text_round_trip(s: Seq<char>)
    requires
        has_separators(s),
        accepts(s),
    ensures
        display_of(value_of(digits_of(s))) == s,
{
    lemma_punctuated_text(s);
    let g = unpunctuate(s);
    let d = digits_of(s);
    lemma_digit_chars_of_values(g);
    lemma_padded_of_value(d);
}

/// Round trip from a value: the canonical form of a valid CPF number is accepted, is read
/// back as the same number, and so is written again as the same text.
pub proof fn lemma_display_parse_round_trip(n: nat)
    requires
        is_valid_value(n),
    ensures
        accepts(display_of(n)),
        value_of(digits_of(display_of(n))) == n,
        display_of(value_of(digits_of(display_of(n)))) == display_of(n),
{
    let p = padded_digits(n, 11);
    let g = digit_chars(p);
    lemma_padded_digits_shape(n, 11);
    lemma_digit_values_of_chars(p);
    lemma_punctuate_keeps_digits(g);
    lemma_digits_of_all_digit_chars(g);
    lemma_value_of_padded(n, 11);
    lemma_pow10_positive(11);
    assert(n % pow10(11) == n) by {
        vstd::arithmetic::div_mod::lemma_small_mod(n, pow10(11));
    }
}

/// No text of eleven equal digits is accepted.
pub proof fn lemma_uniform_digits_rejected(d: nat)
    requires
        d < 10,
    ensures
        !accepts(Seq::new(11, |i: int| digit_char(d))),
{
    let s = Seq::new(11, |i: int| digit_char(d));
    lemma_digits_of_all_digit_chars(s);
    let v = digits_of(s);
    assert(forall|i: int| 0 <= i < v.len() ==> #[trigger] v[i] == v[0]);
}

/// A text of any length but eleven and fourteen is refused.
pub proof fn lemma_wrong_length_rejected(s: Seq<char>)
    requires
        s.len() != 11,
        s.len() != 14,
    ensures
        !accepts(s),
{
}

/// A text of fourteen characters without `.`, `.` and `-` at positions 3, 7 and 11 is refused.
pub proof fn lemma_misplaced_separators_rejected(s: Seq<char>)
    requires
        s.len() == 14,
        !(s[3] == '.' && s[7] == '.' && s[11] == '-'),
    ensures
        !accepts(s),
{
}

/// The weighted sum of the first `n` digits reads those digits only.
proof fn lemma_weighted_sum_prefix(d: Seq<nat>, e: Seq<nat>, n: nat, top: nat)
    requires
        forall|j: int| 0 <= j < n ==> #[trigger] d[j] == e[j],
    ensures
        weighted_sum(d, n, top) == weighted_sum(e, n, top),
    decreases n,
{
    if n > 0 {
        lemma_weighted_sum_prefix(d, e, (n - 1) as nat, top);
        assert(d[n - 1] == e[n - 1]);
    }
}

/// The two last characters of an accepted text are its verifier digits.
proof fn lemma_verifier_digits_last(s: Seq<char>)
    requires
        accepts(s),
    ensures
        is_digit_char(s[s.len() - 2]),
        is_digit_char(s[s.len() - 1]),
        digits_of(s.subrange(0, s.len() - 2)).len() == 9,
{
    let n = s.len() as int;
    if n == 11 {
        lemma_digits_of_len(s);
    } else {
        lemma_punctuated_text(s);
        assert(unpunctuate(s)[9] == s[12]);
        assert(unpunctuate(s)[10] == s[13]);
    }
    let p = s.subrange(0, n - 2);
    let tail = s.subrange(n - 2, n);
    assert(s =~= p + tail);
    lemma_digits_of_concat(p, tail);
    assert(forall|j: int| 0 <= j < 2 ==> is_digit_char(#[trigger] tail[j])) by {
        assert(tail[0] == s[n - 2] && tail[1] == s[n - 1]);
    }
    lemma_digits_of_all_digit_chars(tail);
}

/// Changing either verifier digit of an accepted text to another digit makes it refused.
pub proof fn lemma_changed_verifier_digit_rejected(s: Seq<char>, i: int, c: char)
    requires
        accepts(s),
        i == s.len() - 2 || i == s.len() - 1,
        is_digit_char(c),
        c != s[i],
    ensures
        !accepts(s.update(i, c)),
{
    let n = s.len() as int;
    let t = s.update(i, c);
    lemma_verifier_digits_last(s);
    let p = s.subrange(0, n - 2);
    let ts = s.subrange(n - 2, n);
    let tt = t.subrange(n - 2, n);
    assert(s =~= p + ts);
    assert(t =~= p + tt);
    lemma_digits_of_concat(p, ts);
    lemma_digits_of_concat(p, tt);
    assert(forall|j: int| 0 <= j < 2 ==> is_digit_char(#[trigger] ts[j])) by {
        assert(ts[0] == s[n - 2] && ts[1] == s[n - 1]);
    }
    assert(forall|j: int| 0 <= j < 2 ==> is_digit_char(#[trigger] tt[j])) by {
        assert(tt[0] == t[n - 2] && tt[1] == t[n - 1]);
    }
    lemma_digits_of_all_digit_chars(ts);
    lemma_digits_of_all_digit_chars(tt);
    let ds = digits_of(s);
    let dt = digits_of(t);
    assert(dt.len() == 11);
    assert(digit_value(c) != digit_value(s[i])) by {
        lemma_digit_value_char(c);
        lemma_digit_value_char(s[i]);
    }
    if i == n - 2 {
        assert(forall|j: int| 0 <= j < 9 ==> #[trigger] ds[j] == dt[j]);
        lemma_weighted_sum_prefix(ds, dt, 9, 10);
        assert(dt[9] == digit_value(c));
        assert(ds[9] == digit_value(s[i]));
    } else {
        assert(forall|j: int| 0 <= j < 10 ==> #[trigger] ds[j] == dt[j]);
        lemma_weighted_sum_prefix(ds, dt, 10, 11);
        assert(dt[10] == digit_value(c));
        assert(ds[10] == digit_value(s[i]));
    }
}

} // verus!
