//! Text helpers shared by the other modules: the few `String` operations that
//! need a stated contract, decimal digits, and the byte-wise order of texts.

use vstd::prelude::*;
use vstd::string::StrSliceExecFns;

verus! {

/// `String::push` of the standard library. Trusted: the text afterwards is
/// the text before with `ch` appended.
pub assume_specification[ String::push ](s: &mut String, ch: char)
    ensures
        final(s)@ == old(s)@.push(ch),
;

/// `String::pop` of the standard library. Trusted: it removes and returns the
/// last character, and on an empty text returns `None` and changes nothing.
pub assume_specification[ String::pop ](s: &mut String) -> (r: Option<char>)
    ensures
        r == (if old(s)@.len() > 0 {
            Some(old(s)@.last())
        } else {
            None
        }),
        final(s)@ == (if old(s)@.len() > 0 {
            old(s)@.drop_last()
        } else {
            old(s)@
        }),
;

/// Whether `c` is one of the ten ASCII decimal digits.
pub open spec fn is_digit(c: char) -> bool {
    '0' <= c && c <= '9'
}

/// The number a decimal digit stands for.
pub open spec fn digit_value(c: char) -> int {
    c as int - '0' as int
}

/// The character that stands for the digit `d`, for `0 <= d <= 9`.
pub open spec fn digit_char(d: int) -> char {
    (d + '0' as int) as char
}

/// Whether every character of `s` is a decimal digit.
pub open spec fn all_digits(s: Seq<char>) -> bool {
    forall|i: int| 0 <= i < s.len() ==> is_digit(#[trigger] s[i])
}

/// The number that a run of decimal digits denotes; the empty run denotes 0.
pub open spec fn digits_value(s: Seq<char>) -> nat
    decreases s.len(),
{
    if s.len() == 0 {
        0
    } else {
        (digits_value(s.drop_last()) * 10 + digit_value(s.last())) as nat
    }
}

/// One less than `n`, and 0 for 0.
pub open spec fn less_one(n: nat) -> nat {
    if n > 0 {
        (n - 1) as nat
    } else {
        0
    }
}

/// The decimal digits of `n`, with zeros in front where there are fewer
/// than `width` of them.
pub open spec fn padded_digits(n: nat, width: nat) -> Seq<char>
    decreases n, width,
{
    if n < 10 && width <= 1 {
        seq![digit_char(n as int)]
    } else {
        padded_digits(n / 10, less_one(width)).push(digit_char((n % 10) as int))
    }
}

/// `s` with spaces behind it where it has fewer than `width` characters.
pub open spec fn padded_right(s: Seq<char>, width: nat) -> Seq<char> {
    if s.len() >= width {
        s
    } else {
        s + Seq::new((width - s.len()) as nat, |i: int| ' ')
    }
}

/// The order of texts by character code, first difference deciding, a proper
/// prefix coming first. This is the order of their UTF-8 bytes.
pub open spec fn text_le(a: Seq<char>, b: Seq<char>) -> bool {
    exists|k: int| #[trigger] decides_le(a, b, k)
}

/// Whether `a` and `b` agree on their first `k` characters and `a` either
/// ends there or goes on with a smaller character than `b`.
pub open spec fn decides_le(a: Seq<char>, b: Seq<char>, k: int) -> bool {
    &&& 0 <= k <= a.len()
    &&& k <= b.len()
    &&& a.take(k) == b.take(k)
    &&& (k == a.len() || (k < b.len() && a[k] < b[k]))
}

/// The characters of `s`, in order.
pub fn chars_of(s: &str) -> (v: Vec<char>)
    ensures
        v@ == s@,
{
    let mut v: Vec<char> = Vec::new();
    for c in it: s.chars()
        invariant
            it.seq() == s@,
            v@ == it.seq().take(it.index() as int),
    {
        v.push(c);
    }
    v
}

/// The text that holds the characters of `chars`, in order.
pub fn string_of(chars: &Vec<char>) -> (s: String)
    ensures
        s@ == chars@,
{
    let mut s = String::new();
    let mut i: usize = 0;
    while i < chars.len()
        invariant
            i <= chars.len(),
            s@ == chars@.take(i as int),
        decreases chars.len() - i,
    {
        s.push(chars[i]);
        i += 1;
        assert(s@ =~= chars@.take(i as int));
    }
    assert(chars@.take(i as int) =~= chars@);
    s
}

/// Tests `c` for a decimal digit.
pub fn is_digit_char(c: char) -> (r: bool)
    ensures
        r == is_digit(c),
{
    '0' <= c && c <= '9'
}

/// Decides `text_le` on two character vectors.
pub fn chars_le(a: &Vec<char>, b: &Vec<char>) -> (r: bool)
    ensures
        r == text_le(a@, b@),
{
    let mut i: usize = 0;
    while i < a.len() && i < b.len()
        invariant
            i <= a.len(),
            i <= b.len(),
            a@.take(i as int) == b@.take(i as int),
        decreases a.len() - i,
    {
        if a[i] != b[i] {
            let r = a[i] < b[i];
            proof {
                lemma_first_difference(a@, b@, i as int);
            }
            return r;
        }
        proof {
            assert(a@.take(i + 1) == a@.take(i as int).push(a@[i as int]));
            assert(b@.take(i + 1) == b@.take(i as int).push(b@[i as int]));
        }
        i += 1;
    }
    proof {
        lemma_common_prefix(a@, b@, i as int);
    }
    a.len() <= b.len()
}

/// The character of a digit.
fn char_of_digit(d: u8) -> (c: char)
    requires
        d <= 9,
    ensures
        c == digit_char(d as int),
        is_digit(c),
{
    (d + 48) as char
}

/// Appends the decimal digits of `n` to `out`, with zeros in front where
/// there are fewer than `width` of them.
pub fn push_padded_digits(out: &mut Vec<char>, n: u64, width: usize)
    ensures
        final(out)@ == old(out)@ + padded_digits(n as nat, width as nat),
    decreases n, width,
{
    if n < 10 && width <= 1 {
        out.push(char_of_digit(n as u8));
        assert(out@ =~= old(out)@ + padded_digits(n as nat, width as nat));
    } else {
        let rest: usize = if width > 0 {
            width - 1
        } else {
            0
        };
        push_padded_digits(out, n / 10, rest);
        out.push(char_of_digit((n % 10) as u8));
        assert(out@ =~= old(out)@ + padded_digits(n as nat, width as nat));
    }
}

/// A copy of `text` with spaces behind it where it has fewer than `width`
/// characters.
pub fn pad_right(text: &str, width: usize) -> (s: String)
    ensures
        s@ == padded_right(text@, width as nat),
{
    let mut s = text.to_owned();
    let mut n: usize = text.unicode_len();
    while n < width
        invariant
            n >= text@.len(),
            n <= width || n == text@.len(),
            s@.len() == n,
            s@ == text@ + Seq::new((n - text@.len()) as nat, |i: int| ' '),
        decreases width - n,
    {
        s.push(' ');
        n += 1;
        assert(s@ =~= text@ + Seq::new((n - text@.len()) as nat, |i: int| ' '));
    }
    assert(s@ =~= padded_right(text@, width as nat));
    s
}

/// Whether two texts hold the same characters.
pub fn str_eq(a: &str, b: &str) -> (r: bool)
    ensures
        r == (a@ == b@),
{
    let av = chars_of(a);
    let bv = chars_of(b);
    if av.len() != bv.len() {
        return false;
    }
    let mut i: usize = 0;
    while i < av.len()
        invariant
            i <= av.len(),
            av.len() == bv.len(),
            av@ == a@,
            bv@ == b@,
            av@.take(i as int) == bv@.take(i as int),
        decreases av.len() - i,
    {
        if av[i] != bv[i] {
            assert(av@[i as int] != bv@[i as int]);
            return false;
        }
        proof {
            assert(av@.take(i + 1) == av@.take(i as int).push(av@[i as int]));
            assert(bv@.take(i + 1) == bv@.take(i as int).push(bv@[i as int]));
        }
        i += 1;
    }
    proof {
        assert(av@.take(i as int) == av@);
        assert(bv@.take(i as int) == bv@);
    }
    true
}

/// Decides `text_le` on two texts.
pub fn str_le(a: &str, b: &str) -> (r: bool)
    ensures
        r == text_le(a@, b@),
{
    let av = chars_of(a);
    let bv = chars_of(b);
    chars_le(&av, &bv)
}

/// Where two texts agree up to `i` and differ at `i`, the characters at `i`
/// decide their order.
pub proof fn lemma_first_difference(a: Seq<char>, b: Seq<char>, i: int)
    requires
        0 <= i < a.len(),
        i < b.len(),
        a.take(i) == b.take(i),
        a[i] != b[i],
    ensures
        text_le(a, b) == (a[i] < b[i]),
{
    if a[i] < b[i] {
        assert(decides_le(a, b, i));
    }
    if text_le(a, b) {
        let k = choose|k: int| #[trigger] decides_le(a, b, k);
        if k > i {
            assert(a.take(k)[i] == b.take(k)[i]);
        } else if k < i {
            assert(a.take(i)[k] == a[k]);
            assert(b.take(i)[k] == b[k]);
        }
    }
}

/// Where one of two texts ends at `i` and they agree up to `i`, the shorter
/// one comes first.
pub proof fn lemma_common_prefix(a: Seq<char>, b: Seq<char>, i: int)
    requires
        0 <= i <= a.len(),
        i <= b.len(),
        a.take(i) == b.take(i),
        i == a.len() || i == b.len(),
    ensures
        text_le(a, b) == (a.len() <= b.len()),
{
    if a.len() <= b.len() {
        assert(decides_le(a, b, i));
    }
    if text_le(a, b) {
        let k = choose|k: int| #[trigger] decides_le(a, b, k);
        if k < i {
            assert(a.take(i)[k] == a[k]);
            assert(b.take(i)[k] == b[k]);
        }
    }
}

/// Two texts that begin alike are ordered as what follows the common
/// beginning.
pub proof fn lemma_le_behind_prefix(p: Seq<char>, x: Seq<char>, y: Seq<char>)
    ensures
        text_le(p + x, p + y) == text_le(x, y),
{
    let n = p.len() as int;
    let a = p + x;
    let b = p + y;
    if text_le(x, y) {
        let k = choose|k: int| #[trigger] decides_le(x, y, k);
        assert(a.take(k + n) =~= p + x.take(k));
        assert(b.take(k + n) =~= p + y.take(k));
        assert(k < x.len() ==> a[k + n] == x[k]);
        assert(k < y.len() ==> b[k + n] == y[k]);
        assert(decides_le(a, b, k + n));
    }
    if text_le(a, b) {
        let k = choose|k: int| #[trigger] decides_le(a, b, k);
        if k < n {
            assert(a[k] == p[k]);
            assert(b[k] == p[k]);
        } else {
            assert(x.take(k - n) =~= a.take(k).skip(n));
            assert(y.take(k - n) =~= b.take(k).skip(n));
            assert(k < a.len() ==> a[k] == x[k - n]);
            assert(k < b.len() ==> b[k] == y[k - n]);
            assert(decides_le(x, y, k - n));
        }
    }
}

/// A text that lies between two texts beginning alike begins like them.
pub proof fn lemma_between_shares_prefix(p: Seq<char>, x: Seq<char>, y: Seq<char>, t: Seq<char>)
    requires
        text_le(p + x, t),
        text_le(t, p + y),
    ensures
        t.len() >= p.len(),
        t.take(p.len() as int) == p,
{
    let n = p.len() as int;
    let a = p + x;
    let b = p + y;
    let k1 = choose|k: int| #[trigger] decides_le(a, t, k);
    let k2 = choose|k: int| #[trigger] decides_le(t, b, k);
    if k1 < n {
        assert(a[k1] == p[k1]);
        assert(b[k1] == p[k1]);
        if k2 > k1 {
            assert(t.take(k2)[k1] == t[k1]);
            assert(b.take(k2)[k1] == b[k1]);
        } else if k2 < k1 {
            assert(a.take(k1)[k2] == a[k2]);
            assert(t.take(k1)[k2] == t[k2]);
            assert(a[k2] == p[k2]);
            assert(b[k2] == p[k2]);
        }
        assert(false);
    }
    assert forall|j: int| 0 <= j < n implies t[j] == p[j] by {
        assert(a.take(k1)[j] == a[j]);
        assert(t.take(k1)[j] == t[j]);
        assert(a[j] == p[j]);
    }
    assert(t.take(n) =~= p);
}

/// Padded digits are decimal digits, at least `width` of them and at least
/// one.
pub proof fn lemma_padded_digits(n: nat, width: nat)
    ensures
        all_digits(padded_digits(n, width)),
        padded_digits(n, width).len() >= width,
        padded_digits(n, width).len() >= 1,
    decreases n, width,
{
    if !(n < 10 && width <= 1) {
        lemma_padded_digits(n / 10, less_one(width));
        let front = padded_digits(n / 10, less_one(width));
        let all = padded_digits(n, width);
        assert forall|i: int| 0 <= i < all.len() implies is_digit(#[trigger] all[i]) by {
            if i < front.len() {
                assert(all[i] == front[i]);
            }
        }
    }
}

/// Different numbers have different padded digits.
pub proof fn lemma_padded_digits_differ(a: nat, b: nat, width: nat)
    requires
        padded_digits(a, width) == padded_digits(b, width),
    ensures
        a == b,
    decreases a, width,
{
    let rest = less_one(width);
    lemma_padded_digits(a / 10, rest);
    lemma_padded_digits(b / 10, rest);
    let base_a = a < 10 && width <= 1;
    let base_b = b < 10 && width <= 1;
    let fa = padded_digits(a / 10, rest);
    let fb = padded_digits(b / 10, rest);
    let la = digit_char((a % 10) as int);
    let lb = digit_char((b % 10) as int);
    assert(padded_digits(a, width) == if base_a {
        seq![digit_char(a as int)]
    } else {
        fa.push(la)
    });
    assert(padded_digits(b, width) == if base_b {
        seq![digit_char(b as int)]
    } else {
        fb.push(lb)
    });
    if base_a && base_b {
        assert(seq![digit_char(a as int)][0] == seq![digit_char(b as int)][0]);
    } else if !base_a && !base_b {
        assert(fa.push(la).drop_last() == fa);
        assert(fb.push(lb).drop_last() == fb);
        assert(fa.push(la).last() == la);
        assert(fb.push(lb).last() == lb);
        lemma_padded_digits_differ(a / 10, b / 10, rest);
    } else {
        assert(seq![digit_char(a as int)].len() == 1);
        assert(seq![digit_char(b as int)].len() == 1);
        assert(fa.push(la).len() >= 2);
        assert(fb.push(lb).len() >= 2);
    }
}

/// A number below 100 has two padded digits: its tens and its ones.
pub proof fn lemma_two_digits(n: nat)
    requires
        n < 100,
    ensures
        padded_digits(n, 2) == seq![digit_char((n / 10) as int), digit_char((n % 10) as int)],
{
    reveal_with_fuel(padded_digits, 3);
    assert(padded_digits(n, 2) =~= seq![
        digit_char((n / 10) as int),
        digit_char((n % 10) as int),
    ]);
}

/// Numbers below 100 are ordered as their two digits are.
pub proof fn lemma_two_digits_ordered(a: nat, b: nat)
    requires
        a <= b < 100,
    ensures
        text_le(padded_digits(a, 2), padded_digits(b, 2)),
{
    lemma_two_digits(a);
    lemma_two_digits(b);
    let x = padded_digits(a, 2);
    let y = padded_digits(b, 2);
    if a / 10 != b / 10 {
        assert(x.take(0) =~= y.take(0));
        lemma_first_difference(x, y, 0);
    } else if a % 10 != b % 10 {
        assert(x.take(1) =~= y.take(1));
        lemma_first_difference(x, y, 1);
    } else {
        assert(x.take(2) =~= y.take(2));
        lemma_common_prefix(x, y, 2);
    }
}

/// Padded digits denote the number they were made from.
pub proof fn lemma_padded_digits_value(n: nat, width: nat)
    ensures
        digits_value(padded_digits(n, width)) == n,
    decreases n, width,
{
    let all = padded_digits(n, width);
    if n < 10 && width <= 1 {
        assert(all.drop_last() =~= Seq::<char>::empty());
        assert(all.last() == digit_char(n as int));
        assert(digits_value(all.drop_last()) == 0);
    } else {
        let front = padded_digits(n / 10, less_one(width));
        lemma_padded_digits_value(n / 10, less_one(width));
        assert(all.drop_last() =~= front);
        assert(all.last() == digit_char((n % 10) as int));
    }
}

} // verus!
