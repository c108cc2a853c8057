//! Amounts of money as exact decimal numbers, and the reading of an amount
//! from the text a user types.

use crate::text::{
    all_digits, chars_of, digit_value, digits_value, is_digit, is_digit_char, lemma_padded_digits,
    lemma_padded_digits_value, padded_digits, push_padded_digits,
};
use vstd::prelude::*;

verus! {

/// A decimal number as mathematics sees it: `units / 10^scale`.
pub struct Decimal {
    pub units: int,
    pub scale: nat,
}

impl Decimal {
    /// Whether no other pair with a smaller scale stands for the same number.
    pub open spec fn normalized(self) -> bool {
        self.scale == 0 || self.units % 10 != 0
    }

    /// The normalized pair that stands for the same number: trailing zeros
    /// behind the decimal point are dropped.
    pub open spec fn normalize(self) -> Decimal
        decreases self.scale,
    {
        if self.scale > 0 && self.units % 10 == 0 {
            (Decimal { units: self.units / 10, scale: (self.scale - 1) as nat }).normalize()
        } else {
            self
        }
    }

    /// Whether the number is below zero.
    pub open spec fn is_negative(self) -> bool {
        self.units < 0
    }
}

/// The position of the first decimal point in `s`, or the length of `s`
/// where it has none.
pub open spec fn point_at(s: Seq<char>) -> int
    decreases s.len(),
{
    if s.len() == 0 || s[0] == '.' {
        0
    } else {
        1 + point_at(s.drop_first())
    }
}

/// What stands before the first decimal point.
pub open spec fn whole_part(s: Seq<char>) -> Seq<char> {
    s.take(point_at(s))
}

/// What stands behind the first decimal point; empty where there is none.
pub open spec fn fraction_part(s: Seq<char>) -> Seq<char> {
    if point_at(s) < s.len() {
        s.skip(point_at(s) + 1)
    } else {
        Seq::empty()
    }
}

/// The texts that denote an amount: decimal digits with at most one decimal
/// point among them, and at least one digit.
pub open spec fn is_decimal_text(s: Seq<char>) -> bool {
    &&& all_digits(whole_part(s))
    &&& all_digits(fraction_part(s))
    &&& whole_part(s).len() + fraction_part(s).len() > 0
}

/// The number that a decimal text denotes.
pub open spec fn decimal_value(s: Seq<char>) -> Decimal {
    (Decimal {
        units: digits_value(whole_part(s) + fraction_part(s)) as int,
        scale: fraction_part(s).len(),
    }).normalize()
}

/// The amount that a text denotes, where it is a decimal text whose
/// normalized form fits an `Amount`.
pub open spec fn parse_decimal(s: Seq<char>) -> Option<Decimal> {
    if is_decimal_text(s) && decimal_value(s).units <= i64::MAX && decimal_value(s).scale
        <= u8::MAX {
        Some(decimal_value(s))
    } else {
        None
    }
}

/// The number below or above zero that a text with or without a minus sign
/// in front denotes, where what follows the sign denotes an amount.
pub open spec fn parse_signed_decimal(s: Seq<char>) -> Option<Decimal> {
    if s.len() > 0 && s[0] == '-' {
        match parse_decimal(s.drop_first()) {
            Some(d) => Some(Decimal { units: -d.units, scale: d.scale }),
            None => None,
        }
    } else {
        parse_decimal(s)
    }
}

/// A decimal number written out: a minus sign where it is below zero, the
/// digits before the point, of which there is at least one, and, where the
/// scale is not 0, the point and as many digits as the scale says.
pub open spec fn decimal_text(d: Decimal) -> Seq<char> {
    let magnitude = if d.units < 0 {
        -d.units
    } else {
        d.units
    };
    let digits = padded_digits(magnitude as nat, d.scale + 1);
    let sign = if d.units < 0 {
        seq!['-']
    } else {
        Seq::empty()
    };
    if d.scale == 0 {
        sign + digits
    } else {
        sign + digits.take(digits.len() - d.scale) + seq!['.'] + digits.skip(
            digits.len() - d.scale,
        )
    }
}

/// An exact decimal amount, `units / 10^scale`, held in normalized form so
/// that equal numbers are equal values.
#[derive(Clone, Copy, PartialEq, Eq, Debug, Structural)]
pub struct Amount {
    units: i64,
    scale: u8,
}

impl View for Amount {
    type V = Decimal;

    closed spec fn view(&self) -> Decimal {
        Decimal { units: self.units as int, scale: self.scale as nat }
    }
}

impl Amount {
    #[verifier::type_invariant]
    spec fn well_formed(self) -> bool {
        self@.normalized()
    }

    /// The amount zero.
    pub fn zero() -> (r: Amount)
        ensures
            r@ == (Decimal { units: 0, scale: 0 }),
    {
        Amount { units: 0, scale: 0 }
    }

    /// The amount `units / 10^scale`, normalized.
    pub fn new(units: i64, scale: u8) -> (r: Amount)
        ensures
            r@ == (Decimal { units: units as int, scale: scale as nat }).normalize(),
    {
        let mut u: i64 = units;
        let mut s: u8 = scale;
        while s > 0 && u % 10 == 0
            invariant
                (Decimal { units: u as int, scale: s as nat }).normalize() == (Decimal {
                    units: units as int,
                    scale: scale as nat,
                }).normalize(),
            decreases s,
        {
            u = u / 10;
            s = s - 1;
        }
        Amount { units: u, scale: s }
    }

    /// The numerator of the normalized form.
    pub fn units(&self) -> (r: i64)
        ensures
            r == self@.units,
            self@.normalized(),
    {
        proof {
            use_type_invariant(self);
        }
        self.units
    }

    /// The number of digits behind the decimal point in the normalized form.
    pub fn scale(&self) -> (r: u8)
        ensures
            r == self@.scale,
            self@.normalized(),
    {
        proof {
            use_type_invariant(self);
        }
        self.scale
    }

    /// Whether the amount is below zero.
    pub fn is_negative(&self) -> (r: bool)
        ensures
            r == self@.is_negative(),
    {
        self.units < 0
    }

    /// The amount written out, as `decimal_text` says.
    pub fn to_text(&self) -> (s: String)
        ensures
            s@ == decimal_text(self@),
    {
        let magnitude: u64 = if self.units >= 0 {
            self.units as u64
        } else {
            (-(self.units + 1)) as u64 + 1
        };
        let mut digits: Vec<char> = Vec::new();
        push_padded_digits(&mut digits, magnitude, self.scale as usize + 1);
        proof {
            lemma_padded_digits(magnitude as nat, (self.scale + 1) as nat);
            assert(digits@ =~= padded_digits(magnitude as nat, (self.scale + 1) as nat));
        }
        let split: usize = digits.len() - self.scale as usize;
        let mut out = String::new();
        if self.units < 0 {
            out.push('-');
        }
        let ghost sign = out@;
        let mut i: usize = 0;
        while i < split
            invariant
                i <= split <= digits.len(),
                out@ == sign + digits@.take(i as int),
            decreases split - i,
        {
            out.push(digits[i]);
            i += 1;
            assert(out@ =~= sign + digits@.take(i as int));
        }
        if self.scale > 0 {
            out.push('.');
            let ghost front = out@;
            while i < digits.len()
                invariant
                    split <= i <= digits.len(),
                    out@ == front + digits@.subrange(split as int, i as int),
                decreases digits.len() - i,
            {
                out.push(digits[i]);
                i += 1;
                assert(out@ =~= front + digits@.subrange(split as int, i as int));
            }
            assert(digits@.subrange(split as int, digits.len() as int) =~= digits@.skip(
                split as int,
            ));
        } else {
            assert(digits@.take(split as int) =~= digits@);
        }
        out
    }

    /// Reads an amount from a decimal text. `None` where the text is no
    /// decimal text, or its normalized form has a numerator above `i64::MAX`
    /// or more than 255 digits behind the point.
    pub fn parse(text: &str) -> (r: Option<Amount>)
        ensures
            match r {
                Some(a) => parse_decimal(text@) == Some(a@),
                None => parse_decimal(text@).is_none(),
            },
    {
        let chars = chars_of(text);
        parse_chars(&chars)
    }

    /// Reads an amount that may have a minus sign in front: what `to_text`
    /// writes. `None` where what follows the sign is no decimal text that
    /// `parse` reads.
    pub fn parse_signed(text: &str) -> (r: Option<Amount>)
        ensures
            match r {
                Some(a) => parse_signed_decimal(text@) == Some(a@),
                None => parse_signed_decimal(text@).is_none(),
            },
    {
        let chars = chars_of(text);
        if chars.len() > 0 && chars[0] == '-' {
            let mut rest: Vec<char> = Vec::new();
            let mut i: usize = 1;
            while i < chars.len()
                invariant
                    1 <= i <= chars.len(),
                    rest@ == chars@.subrange(1, i as int),
                decreases chars.len() - i,
            {
                rest.push(chars[i]);
                i += 1;
                assert(rest@ =~= chars@.subrange(1, i as int));
            }
            assert(chars@.subrange(1, chars.len() as int) =~= chars@.drop_first());
            match parse_chars(&rest) {
                Some(a) => {
                    proof {
                        lemma_parsed_not_negative(rest@);
                    }
                    Some(Amount { units: -a.units, scale: a.scale })
                },
                None => None,
            }
        } else {
            parse_chars(&chars)
        }
    }
}

/// Reads an amount from the characters of a decimal text.
fn parse_chars(chars: &Vec<char>) -> (r: Option<Amount>)
    ensures
        match r {
            Some(a) => parse_decimal(chars@) == Some(a@),
            None => parse_decimal(chars@).is_none(),
        },
{
    let (whole, mut fraction) = split_at_point(chars);
    if !only_digits(&whole) || !only_digits(&fraction) {
        return None;
    }
    if whole.len() == 0 && fraction.len() == 0 {
        return None;
    }
    trim_trailing_zeros(&whole, &mut fraction);
    if fraction.len() > 255 {
        return None;
    }
    match value_of_digits(&whole, &fraction) {
        Some(units) => Some(Amount { units, scale: fraction.len() as u8 }),
        None => None,
    }
}

/// What typing `c` into the amount field does to the amount and to the text
/// typed so far. A digit or a decimal point is appended, and the amount
/// becomes what the longer text denotes, or stays where that text denotes
/// none. Any other character changes nothing.
pub open spec fn typed_amount(value: Decimal, pending: Seq<char>, c: char) -> (
    Decimal,
    Seq<char>,
) {
    if is_digit(c) || c == '.' {
        let text = pending.push(c);
        (
            match parse_decimal(text) {
                Some(v) => v,
                None => value,
            },
            text,
        )
    } else {
        (value, pending)
    }
}

/// What a backspace in the amount field does: the last character typed is
/// removed, and the amount becomes what the shorter text denotes, or zero
/// where that text denotes none.
pub open spec fn erased_amount(pending: Seq<char>) -> (Decimal, Seq<char>) {
    let text = if pending.len() > 0 {
        pending.drop_last()
    } else {
        pending
    };
    (
        match parse_decimal(text) {
            Some(v) => v,
            None => Decimal { units: 0, scale: 0 },
        },
        text,
    )
}

/// Types `c` into the amount field, whose text so far is `pending` and
/// whose amount is `value`; returns the new amount.
pub fn type_amount_char(value: Amount, pending: &mut String, c: char) -> (r: Amount)
    ensures
        (r@, final(pending)@) == typed_amount(value@, old(pending)@, c),
{
    if is_digit_char(c) || c == '.' {
        pending.push(c);
        match Amount::parse(pending.as_str()) {
            Some(v) => v,
            None => value,
        }
    } else {
        value
    }
}

/// Removes the last character of the amount field, whose text so far is
/// `pending`; returns the new amount.
pub fn erase_amount_char(pending: &mut String) -> (r: Amount)
    ensures
        (r@, final(pending)@) == erased_amount(old(pending)@),
{
    pending.pop();
    match Amount::parse(pending.as_str()) {
        Some(v) => v,
        None => Amount::zero(),
    }
}

/// Reading what was written gives the amount back: the text of an amount
/// that is not below zero denotes that amount.
pub proof fn lemma_text_round_trip(d: Decimal)
    requires
        d.normalized(),
        0 <= d.units <= i64::MAX,
        d.scale <= u8::MAX,
    ensures
        parse_decimal(decimal_text(d)) == Some(d),
{
    let digits = padded_digits(d.units as nat, d.scale + 1);
    lemma_padded_digits(d.units as nat, d.scale + 1);
    lemma_padded_digits_value(d.units as nat, d.scale + 1);
    let text = decimal_text(d);
    let cut = digits.len() - d.scale;
    let whole = digits.take(cut);
    let fraction = digits.skip(cut);
    if d.scale == 0 {
        assert(text =~= digits);
        assert forall|j: int| 0 <= j < text.len() implies text[j] != '.' by {
            assert(is_digit(digits[j]));
        }
        lemma_point_at(text, text.len() as int);
        assert(whole_part(text) =~= digits);
        assert(fraction_part(text) =~= Seq::<char>::empty());
        assert(whole_part(text) + fraction_part(text) =~= digits);
    } else {
        assert(text =~= whole + seq!['.'] + fraction);
        assert forall|j: int| 0 <= j < cut implies text[j] != '.' by {
            assert(text[j] == digits[j]);
            assert(is_digit(digits[j]));
        }
        assert(text[cut] == '.');
        lemma_point_at(text, cut);
        assert(whole_part(text) =~= whole);
        assert(fraction_part(text) =~= fraction);
        assert(whole + fraction =~= digits);
        assert(all_digits(whole)) by {
            assert forall|j: int| 0 <= j < whole.len() implies is_digit(#[trigger] whole[j]) by {
                assert(whole[j] == digits[j]);
            }
        }
        assert(all_digits(fraction)) by {
            assert forall|j: int| 0 <= j < fraction.len() implies is_digit(
                #[trigger] fraction[j],
            ) by {
                assert(fraction[j] == digits[j + cut]);
            }
        }
    }
}

/// Reading what was written gives the amount back, below zero too: the text
/// of an amount denotes that amount, but for the one whose numerator is
/// `i64::MIN`.
pub proof fn lemma_signed_text_round_trip(d: Decimal)
    requires
        d.normalized(),
        -i64::MAX <= d.units <= i64::MAX,
        d.scale <= u8::MAX,
    ensures
        parse_signed_decimal(decimal_text(d)) == Some(d),
{
    lemma_padded_digits(d.units as nat, d.scale + 1);
    if d.units < 0 {
        let positive = Decimal { units: -d.units, scale: d.scale };
        lemma_text_round_trip(positive);
        assert(decimal_text(d) =~= seq!['-'] + decimal_text(positive));
        assert(decimal_text(d).drop_first() =~= decimal_text(positive));
    } else {
        lemma_text_round_trip(d);
        let text = decimal_text(d);
        let digits = padded_digits(d.units as nat, d.scale + 1);
        assert(text[0] == digits[0]);
        assert(is_digit(digits[0]));
    }
}

/// A character that is neither a digit nor a decimal point is rejected: the
/// amount and the text typed so far stay as they are.
pub proof fn lemma_other_chars_rejected(value: Decimal, pending: Seq<char>, c: char)
    requires
        !is_digit(c),
        c != '.',
    ensures
        typed_amount(value, pending, c) == (value, pending),
{
}

/// No decimal text denotes an amount below zero.
pub proof fn lemma_parsed_not_negative(s: Seq<char>)
    ensures
        parse_decimal(s) matches Some(v) ==> !v.is_negative() && v.normalized(),
{
    let d = Decimal {
        units: digits_value(whole_part(s) + fraction_part(s)) as int,
        scale: fraction_part(s).len(),
    };
    lemma_normalize(d);
}

/// Normalizing keeps the sign and gives a normalized pair.
pub proof fn lemma_normalize(d: Decimal)
    ensures
        d.normalize().normalized(),
        d.normalize().is_negative() == d.is_negative(),
        d.normalize().scale <= d.scale,
    decreases d.scale,
{
    if d.scale > 0 && d.units % 10 == 0 {
        lemma_normalize(Decimal { units: d.units / 10, scale: (d.scale - 1) as nat });
    }
}

/// Splits a text at its first decimal point.
fn split_at_point(chars: &Vec<char>) -> (r: (Vec<char>, Vec<char>))
    ensures
        r.0@ == whole_part(chars@),
        r.1@ == fraction_part(chars@),
{
    let n = chars.len();
    let mut whole: Vec<char> = Vec::new();
    let mut p: usize = 0;
    while p < n && chars[p] != '.'
        invariant
            p <= n,
            n == chars.len(),
            whole@ == chars@.take(p as int),
            forall|j: int| 0 <= j < p ==> chars@[j] != '.',
        decreases n - p,
    {
        whole.push(chars[p]);
        assert(chars@.take(p + 1) == chars@.take(p as int).push(chars@[p as int]));
        p += 1;
    }
    proof {
        lemma_point_at(chars@, p as int);
    }
    let mut fraction: Vec<char> = Vec::new();
    if p < n {
        let mut i: usize = p + 1;
        while i < n
            invariant
                p + 1 <= i <= n,
                n == chars.len(),
                fraction@ == chars@.subrange(p + 1, i as int),
            decreases n - i,
        {
            fraction.push(chars[i]);
            assert(chars@.subrange(p + 1, i + 1) == chars@.subrange(p + 1, i as int).push(
                chars@[i as int],
            ));
            i += 1;
        }
        assert(chars@.subrange(p + 1, n as int) == chars@.skip(p + 1));
    }
    (whole, fraction)
}

/// Tests every character for a decimal digit.
fn only_digits(chars: &Vec<char>) -> (r: bool)
    ensures
        r == all_digits(chars@),
{
    let mut i: usize = 0;
    while i < chars.len()
        invariant
            i <= chars.len(),
            forall|j: int| 0 <= j < i ==> is_digit(#[trigger] chars@[j]),
        decreases chars.len() - i,
    {
        if !is_digit_char(chars[i]) {
            return false;
        }
        i += 1;
    }
    true
}

/// Drops the zeros at the end of the fraction; what is left with `whole`
/// before it denotes the same number in normalized form.
fn trim_trailing_zeros(whole: &Vec<char>, fraction: &mut Vec<char>)
    requires
        all_digits(whole@),
        all_digits(old(fraction)@),
    ensures
        all_digits(final(fraction)@),
        final(fraction)@.len() <= old(fraction)@.len(),
        (Decimal {
            units: digits_value(whole@ + old(fraction)@) as int,
            scale: old(fraction)@.len(),
        }).normalize() == (Decimal {
            units: digits_value(whole@ + final(fraction)@) as int,
            scale: final(fraction)@.len(),
        }),
        (Decimal {
            units: digits_value(whole@ + final(fraction)@) as int,
            scale: final(fraction)@.len(),
        }).normalized(),
{
    while fraction.len() > 0 && fraction[fraction.len() - 1] == '0'
        invariant
            all_digits(fraction@),
            fraction@.len() <= old(fraction)@.len(),
            (Decimal {
                units: digits_value(whole@ + old(fraction)@) as int,
                scale: old(fraction)@.len(),
            }).normalize() == (Decimal {
                units: digits_value(whole@ + fraction@) as int,
                scale: fraction@.len(),
            }).normalize(),
        decreases fraction.len(),
    {
        proof {
            lemma_drop_trailing_zero(whole@, fraction@);
        }
        fraction.pop();
    }
    proof {
        if fraction@.len() > 0 {
            let all = whole@ + fraction@;
            assert(all.last() == fraction@.last());
            assert(is_digit(fraction@[fraction@.len() - 1]));
            assert(digits_value(all) % 10 == digit_value(all.last()));
        }
    }
}

/// The number that the digits of `whole` followed by those of `fraction`
/// denote, where it is at most `i64::MAX`.
fn value_of_digits(whole: &Vec<char>, fraction: &Vec<char>) -> (r: Option<i64>)
    requires
        all_digits(whole@),
        all_digits(fraction@),
    ensures
        match r {
            Some(v) => v == digits_value(whole@ + fraction@),
            None => digits_value(whole@ + fraction@) > i64::MAX,
        },
{
    let ghost digits = whole@ + fraction@;
    proof {
        lemma_all_digits_concat(whole@, fraction@);
    }
    let total: usize = whole.len();
    let mut units: i64 = 0;
    let mut j: usize = 0;
    while j < total
        invariant
            j <= total,
            total == whole.len(),
            all_digits(whole@),
            all_digits(digits),
            digits == whole@ + fraction@,
            0 <= units,
            units == digits_value(whole@.take(j as int)),
        decreases total - j,
    {
        let c = whole[j];
        assert(is_digit(whole@[j as int]));
        let d: i64 = (c as u32 - '0' as u32) as i64;
        proof {
            assert(whole@.take(j + 1).drop_last() == whole@.take(j as int));
            assert(whole@.take(j + 1).last() == c);
        }
        if units > (i64::MAX - d) / 10 {
            proof {
                assert(digits.take(j + 1) == whole@.take(j + 1));
                lemma_digits_value_grows(digits, j + 1);
            }
            return None;
        }
        units = units * 10 + d;
        j += 1;
    }
    assert(whole@.take(total as int) == whole@);
    let more: usize = fraction.len();
    let mut k: usize = 0;
    while k < more
        invariant
            k <= more,
            more == fraction.len(),
            all_digits(whole@),
            all_digits(fraction@),
            all_digits(digits),
            digits == whole@ + fraction@,
            0 <= units,
            units == digits_value(whole@ + fraction@.take(k as int)),
        decreases more - k,
    {
        let c = fraction[k];
        assert(is_digit(fraction@[k as int]));
        let d: i64 = (c as u32 - '0' as u32) as i64;
        proof {
            let next = whole@ + fraction@.take(k + 1);
            assert(next.drop_last() == whole@ + fraction@.take(k as int));
            assert(next.last() == c);
        }
        if units > (i64::MAX - d) / 10 {
            proof {
                assert(digits.take(whole@.len() + k + 1) == whole@ + fraction@.take(k + 1));
                lemma_digits_value_grows(digits, whole@.len() + k + 1);
            }
            return None;
        }
        units = units * 10 + d;
        k += 1;
    }
    proof {
        assert(fraction@.take(more as int) == fraction@);
        assert(whole@ + fraction@.take(0) == whole@);
    }
    Some(units)
}

/// The first decimal point of `s` stands at `p` where no earlier character
/// is one and `s` ends or has one there.
pub proof fn lemma_point_at(s: Seq<char>, p: int)
    requires
        0 <= p <= s.len(),
        forall|j: int| 0 <= j < p ==> s[j] != '.',
        p == s.len() || s[p] == '.',
    ensures
        point_at(s) == p,
    decreases p,
{
    if p > 0 {
        let rest = s.drop_first();
        assert forall|j: int| 0 <= j < p - 1 implies rest[j] != '.' by {
            assert(rest[j] == s[j + 1]);
        }
        lemma_point_at(rest, p - 1);
    }
}

/// Two runs of decimal digits, one behind the other, are a run of decimal
/// digits.
pub proof fn lemma_all_digits_concat(a: Seq<char>, b: Seq<char>)
    requires
        all_digits(a),
        all_digits(b),
    ensures
        all_digits(a + b),
{
    assert forall|i: int| 0 <= i < (a + b).len() implies is_digit(#[trigger] (a + b)[i]) by {
        if i < a.len() {
            assert((a + b)[i] == a[i]);
        } else {
            assert((a + b)[i] == b[i - a.len()]);
        }
    }
}

/// A zero at the end of the fraction multiplies the numerator by ten.
pub proof fn lemma_drop_trailing_zero(whole: Seq<char>, fraction: Seq<char>)
    requires
        fraction.len() > 0,
        fraction.last() == '0',
    ensures
        (Decimal {
            units: digits_value(whole + fraction) as int,
            scale: fraction.len(),
        }).normalize() == (Decimal {
            units: digits_value(whole + fraction.drop_last()) as int,
            scale: (fraction.len() - 1) as nat,
        }).normalize(),
{
    let all = whole + fraction;
    assert(all.drop_last() == whole + fraction.drop_last());
    assert(all.last() == '0');
    assert(digits_value(all) == digits_value(all.drop_last()) * 10);
}

/// Among decimal digits, a run denotes at least what any of its prefixes
/// denotes.
pub proof fn lemma_digits_value_grows(s: Seq<char>, k: int)
    requires
        all_digits(s),
        0 <= k <= s.len(),
    ensures
        digits_value(s.take(k)) <= digits_value(s),
    decreases s.len() - k,
{
    if k < s.len() {
        lemma_digits_value_grows(s, k + 1);
        assert(s.take(k + 1).drop_last() == s.take(k));
        assert(is_digit(s[k]));
        assert(s.take(k + 1).last() == s[k]);
    } else {
        assert(s.take(k) == s);
    }
}

} // verus!
