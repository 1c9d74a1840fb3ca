//! Characters, digit runs, and string building.
//!
//! The journal output and the fee-description patterns both come down to
//! digit strings. This module gives digit sequences an exact numeric
//! meaning (`digits_val`), a canonical rendering (`spec_digits`), and the
//! executable routines that build and read them.

use vstd::prelude::*;
use vstd::string::StringExecFns;
use vstd::string::StrSliceExecFns;
use crate::decimal::pow10;
use crate::decimal::lemma_pow10_values;

verus! {

/// Whether `c` is a decimal digit.
pub open spec fn is_digit(c: char) -> bool {
    48 <= c as int && c as int <= 57
}

/// The numeric value of a digit character.
pub open spec fn digit_val(c: char) -> int {
    c as int - 48
}

/// The digit character for `d` (meaningful for `0 <= d <= 9`).
pub open spec fn digit_char(d: int) -> char {
    if d == 0 {
        '0'
    } else if d == 1 {
        '1'
    } else if d == 2 {
        '2'
    } else if d == 3 {
        '3'
    } else if d == 4 {
        '4'
    } else if d == 5 {
        '5'
    } else if d == 6 {
        '6'
    } else if d == 7 {
        '7'
    } else if d == 8 {
        '8'
    } else {
        '9'
    }
}

/// Whether every character of `s` is a digit.
pub open spec fn all_digits(s: Seq<char>) -> bool {
    forall|i: int| 0 <= i < s.len() ==> is_digit(#[trigger] s[i])
}

/// The number a digit string denotes, most significant digit first.
pub open spec fn digits_val(s: Seq<char>) -> int
    decreases s.len(),
{
    if s.len() == 0 {
        0
    } else {
        10 * digits_val(s.drop_last()) + digit_val(s.last())
    }
}

/// The canonical digit string of `n`: no leading zero except for zero
/// itself.
pub open spec fn spec_digits(n: nat) -> Seq<char>
    decreases n,
{
    if n < 10 {
        seq![digit_char(n as int)]
    } else {
        spec_digits(n / 10).push(digit_char((n % 10) as int))
    }
}

/// `count` copies of `c`.
pub open spec fn char_repeat(c: char, count: nat) -> Seq<char> {
    Seq::new(count, |i: int| c)
}

/// `s` left-padded with `c` to width `w`.
pub open spec fn left_pad(s: Seq<char>, c: char, w: nat) -> Seq<char> {
    if s.len() >= w {
        s
    } else {
        char_repeat(c, (w - s.len()) as nat) + s
    }
}

/// `s` right-padded with `c` to width `w`.
pub open spec fn right_pad(s: Seq<char>, c: char, w: nat) -> Seq<char> {
    if s.len() >= w {
        s
    } else {
        s + char_repeat(c, (w - s.len()) as nat)
    }
}

pub proof fn lemma_digits_val_nonneg(s: Seq<char>)
    requires
        all_digits(s),
    ensures
        digits_val(s) >= 0,
    decreases s.len(),
{
    if s.len() > 0 {
        lemma_digits_val_nonneg(s.drop_last());
    }
}

/// Concatenating digit strings scales the left part by the length of the
/// right part.
pub proof fn lemma_digits_val_concat(a: Seq<char>, b: Seq<char>)
    ensures
        digits_val(a + b) == digits_val(a) * pow10(b.len()) + digits_val(b),
    decreases b.len(),
{
    if b.len() == 0 {
        assert(a + b =~= a);
        assert(digits_val(a) * 1 == digits_val(a)) by (nonlinear_arith);
    } else {
        lemma_digits_val_concat(a, b.drop_last());
        assert((a + b).drop_last() =~= a + b.drop_last());
        assert(10 * (digits_val(a) * pow10((b.len() - 1) as nat) + digits_val(b.drop_last()))
            == digits_val(a) * (10 * pow10((b.len() - 1) as nat)) + 10 * digits_val(
            b.drop_last(),
        )) by (nonlinear_arith);
        assert(pow10(b.len()) == 10 * pow10((b.len() - 1) as nat));
    }
}

/// The canonical digit string reads back as its number, is all digits, and
/// starts nonzero when the number has more than one digit.
pub proof fn lemma_spec_digits(n: nat)
    ensures
        digits_val(spec_digits(n)) == n,
        all_digits(spec_digits(n)),
        spec_digits(n).len() >= 1,
        n >= 1 ==> spec_digits(n)[0] != '0',
    decreases n,
{
    if n < 10 {
        assert(spec_digits(n) =~= seq![digit_char(n as int)]);
        assert(spec_digits(n).drop_last() =~= Seq::<char>::empty());
        assert(digits_val(Seq::<char>::empty()) == 0);
        assert(digit_val(digit_char(n as int)) == n);
        assert(digits_val(spec_digits(n)) == 10 * 0 + digit_val(digit_char(n as int)));
        if n >= 1 {
            assert(digit_val(digit_char(n as int)) != 0);
        }
    } else {
        lemma_spec_digits(n / 10);
        let s = spec_digits(n);
        assert(s.drop_last() =~= spec_digits(n / 10));
        assert(s.last() == digit_char((n % 10) as int));
        assert(digit_val(digit_char((n % 10) as int)) == (n % 10) as int);
        vstd::arithmetic::div_mod::lemma_fundamental_div_mod(n as int, 10);
        assert(s[0] == spec_digits(n / 10)[0]);
    }
}

/// A number below `10^k` has at most `k` digits.
pub proof fn lemma_spec_digits_len_bound(n: nat, k: nat)
    requires
        n < pow10(k),
        k >= 1,
    ensures
        spec_digits(n).len() <= k,
    decreases n,
{
    if n < 10 {
    } else {
        vstd::arithmetic::div_mod::lemma_fundamental_div_mod(n as int, 10);
        assert(pow10(k) == 10 * pow10((k - 1) as nat));
        assert(n / 10 < pow10((k - 1) as nat)) by (nonlinear_arith)
            requires
                n as int == 10 * (n as int / 10) + n as int % 10,
                n as int % 10 >= 0,
                n < pow10(k),
                pow10(k) == 10 * pow10((k - 1) as nat),
        ;
        crate::decimal::lemma_pow10_pos((k - 1) as nat);
        if k == 1 {
            assert(pow10(1) == 10);
            assert(false);
        }
        lemma_spec_digits_len_bound(n / 10, (k - 1) as nat);
    }
}

/// Append one digit character.
fn append_digit(out: &mut String, d: u128)
    requires
        d < 10,
    ensures
        final(out)@ == old(out)@ + seq![digit_char(d as int)],
{
    let piece: &str = if d == 0 {
        "0"
    } else if d == 1 {
        "1"
    } else if d == 2 {
        "2"
    } else if d == 3 {
        "3"
    } else if d == 4 {
        "4"
    } else if d == 5 {
        "5"
    } else if d == 6 {
        "6"
    } else if d == 7 {
        "7"
    } else if d == 8 {
        "8"
    } else {
        "9"
    };
    proof {
        reveal_strlit("0");
        reveal_strlit("1");
        reveal_strlit("2");
        reveal_strlit("3");
        reveal_strlit("4");
        reveal_strlit("5");
        reveal_strlit("6");
        reveal_strlit("7");
        reveal_strlit("8");
        reveal_strlit("9");
        assert(piece@ =~= seq![digit_char(d as int)]);
    }
    out.append(piece);
}

/// Append the canonical digit string of `n`.
pub fn append_digits(out: &mut String, n: u128)
    ensures
        final(out)@ == old(out)@ + spec_digits(n as nat),
    decreases n,
{
    if n < 10 {
        append_digit(out, n);
    } else {
        append_digits(out, n / 10);
        append_digit(out, n % 10);
        proof {
            assert(old(out)@ + spec_digits((n / 10) as nat) + seq![digit_char((n % 10) as int)]
                =~= old(out)@ + spec_digits(n as nat));
        }
    }
}

/// The length of the canonical digit string of `n`.
pub fn digit_count(n: u128) -> (r: usize)
    ensures
        r == spec_digits(n as nat).len(),
        r >= 1,
    decreases n,
{
    if n < 10 {
        1
    } else {
        let c = digit_count(n / 10);
        proof {
            assert(spec_digits(n as nat).len() == spec_digits((n / 10) as nat).len() + 1);
            // A u128 has at most 39 decimal digits, so the count fits.
            lemma_pow10_values();
            lemma_spec_digits_len_bound((n / 10) as nat, 39);
        }
        c + 1
    }
}

/// Append `count` zeros.
pub fn append_zeros(out: &mut String, count: usize)
    ensures
        final(out)@ == old(out)@ + char_repeat('0', count as nat),
{
    let mut i: usize = 0;
    while i < count
        invariant
            i <= count,
            out@ == old(out)@ + char_repeat('0', i as nat),
        decreases count - i,
    {
        out.append("0");
        i = i + 1;
        proof {
            reveal_strlit("0");
            assert(out@ =~= old(out)@ + char_repeat('0', i as nat));
        }
    }
}

/// Append `count` spaces.
pub fn append_spaces(out: &mut String, count: usize)
    ensures
        final(out)@ == old(out)@ + char_repeat(' ', count as nat),
{
    let mut i: usize = 0;
    while i < count
        invariant
            i <= count,
            out@ == old(out)@ + char_repeat(' ', i as nat),
        decreases count - i,
    {
        out.append(" ");
        i = i + 1;
        proof {
            reveal_strlit(" ");
            assert(out@ =~= old(out)@ + char_repeat(' ', i as nat));
        }
    }
}

/// Append the digit string of `n` left-padded with zeros to `width`.
pub fn append_padded_digits(out: &mut String, n: u128, width: usize)
    ensures
        final(out)@ == old(out)@ + left_pad(spec_digits(n as nat), '0', width as nat),
{
    let k = digit_count(n);
    if k < width {
        append_zeros(out, width - k);
    }
    append_digits(out, n);
    proof {
        if k < width {
            assert(out@ =~= old(out)@ + left_pad(spec_digits(n as nat), '0', width as nat));
        }
    }
}

/// Whether `pat` occurs in `s` starting at index `i`.
pub open spec fn matches_at(s: Seq<char>, pat: Seq<char>, i: int) -> bool {
    &&& 0 <= i
    &&& i + pat.len() <= s.len()
    &&& s.subrange(i, i + pat.len()) == pat
}

/// The end of the digit run of `s` that starts at `i`: the first index at
/// or after `i` holding no digit.
pub open spec fn run_end(s: Seq<char>, i: int) -> int
    decreases s.len() - i,
{
    if 0 <= i < s.len() && is_digit(s[i]) {
        run_end(s, i + 1)
    } else {
        i
    }
}

pub proof fn lemma_run_end(s: Seq<char>, i: int)
    requires
        0 <= i <= s.len(),
    ensures
        i <= run_end(s, i) <= s.len(),
        forall|j: int| i <= j < run_end(s, i) ==> is_digit(#[trigger] s[j]),
        run_end(s, i) == s.len() || !is_digit(s[run_end(s, i)]),
    decreases s.len() - i,
{
    if i < s.len() && is_digit(s[i]) {
        lemma_run_end(s, i + 1);
    }
}

/// Growing an all-digit string never shrinks its value.
pub proof fn lemma_digits_val_take(t: Seq<char>, k: int)
    requires
        all_digits(t),
        0 <= k <= t.len(),
    ensures
        digits_val(t) >= digits_val(t.take(k)),
        digits_val(t.take(k)) >= 0,
    decreases t.len(),
{
    lemma_digits_val_nonneg(t.take(k));
    if k < t.len() {
        assert(t.drop_last().take(k) =~= t.take(k));
        assert(all_digits(t.drop_last()));
        lemma_digits_val_take(t.drop_last(), k);
        lemma_digits_val_nonneg(t.drop_last());
        assert(digits_val(t) == 10 * digits_val(t.drop_last()) + digit_val(t.last()));
        assert(10 * digits_val(t.drop_last()) >= digits_val(t.drop_last())) by (nonlinear_arith)
            requires digits_val(t.drop_last()) >= 0;
    } else {
        assert(t.take(k) =~= t);
    }
}

/// Whether `pat` occurs in `s` at index `i`, executably.
pub fn has_pattern_at(s: &str, pat: &str, i: usize) -> (r: bool)
    requires
        i <= s@.len(),
    ensures
        r == matches_at(s@, pat@, i as int),
{
    let n = s.unicode_len();
    let m = pat.unicode_len();
    if m > n - i {
        proof {
            assert(!matches_at(s@, pat@, i as int));
        }
        return false;
    }
    let mut j: usize = 0;
    while j < m
        invariant
            0 <= j <= m,
            i + m <= n,
            n == s@.len(),
            m == pat@.len(),
            forall|k: int| 0 <= k < j ==> s@[i + k] == pat@[k],
        decreases m - j,
    {
        if s.get_char(i + j) != pat.get_char(j) {
            proof {
                assert(s@.subrange(i as int, i + pat@.len()) != pat@) by {
                    assert(s@.subrange(i as int, i + pat@.len())[j as int] == s@[i + j]);
                }
            }
            return false;
        }
        j = j + 1;
    }
    proof {
        assert(s@.subrange(i as int, i + pat@.len()) =~= pat@);
    }
    true
}

/// The end of the digit run starting at `start`, executably.
pub fn digit_run_end(s: &str, start: usize) -> (r: usize)
    requires
        start <= s@.len(),
    ensures
        r == run_end(s@, start as int),
        start <= r <= s@.len(),
    decreases s@.len() - start,
{
    let n = s.unicode_len();
    if start < n {
        let c = s.get_char(start);
        let code = c as u32;
        if 48 <= code && code <= 57 {
            proof {
                assert(is_digit(s@[start as int]));
            }
            return digit_run_end(s, start + 1);
        }
        proof {
            assert(!is_digit(s@[start as int]));
        }
    }
    start
}

/// The number the digits of `s` between `start` and `end` denote, unless it
/// exceeds `i128::MAX`.
pub fn parse_digits(s: &str, start: usize, end: usize) -> (r: Option<i128>)
    requires
        start <= end <= s@.len(),
        all_digits(s@.subrange(start as int, end as int)),
    ensures
        r is Some <==> digits_val(s@.subrange(start as int, end as int)) <= i128::MAX,
        r matches Some(v) ==> v as int == digits_val(s@.subrange(start as int, end as int)),
{
    let ghost sub = s@.subrange(start as int, end as int);
    let mut acc: i128 = 0;
    let mut i: usize = start;
    while i < end
        invariant
            start <= i <= end <= s@.len(),
            sub == s@.subrange(start as int, end as int),
            all_digits(sub),
            acc as int == digits_val(sub.take(i - start)),
            acc >= 0,
        decreases end - i,
    {
        let c = s.get_char(i);
        proof {
            assert(sub[i - start] == s@[i as int]);
            assert(is_digit(sub[i - start]));
        }
        let d: i128 = (c as u32) as i128 - 48;
        proof {
            assert(sub.take(i - start + 1).drop_last() =~= sub.take(i - start));
            assert(sub.take(i - start + 1).last() == sub[i - start]);
            lemma_digits_val_take(sub, i - start + 1);
        }
        let acc10 = match acc.checked_mul(10) {
            Some(x) => x,
            None => {
                proof {
                    lemma_digits_val_take(sub, i - start + 1);
                    assert(digits_val(sub.take(i - start + 1)) > i128::MAX);
                }
                return None;
            },
        };
        acc = match acc10.checked_add(d) {
            Some(x) => x,
            None => {
                proof {
                    assert(digits_val(sub.take(i - start + 1)) > i128::MAX);
                }
                return None;
            },
        };
        i = i + 1;
    }
    proof {
        assert(sub.take(end - start) =~= sub);
    }
    Some(acc)
}

/// A digit string of zeros reads as zero.
pub proof fn lemma_digits_val_all_zero(t: Seq<char>)
    requires
        forall|i: int| 0 <= i < t.len() ==> t[i] == '0',
    ensures
        digits_val(t) == 0,
    decreases t.len(),
{
    if t.len() > 0 {
        lemma_digits_val_all_zero(t.drop_last());
    }
}

/// A digit string ending in a nonzero digit reads as a positive number not
/// divisible by ten.
pub proof fn lemma_digits_val_last_nonzero(t: Seq<char>)
    requires
        all_digits(t),
        t.len() >= 1,
        t.last() != '0',
    ensures
        digits_val(t) % 10 != 0,
        digits_val(t) >= 1,
{
    lemma_digits_val_nonneg(t.drop_last());
    let d = digit_val(t.last());
    assert(1 <= d <= 9);
    vstd::arithmetic::div_mod::lemma_fundamental_div_mod_converse(
        digits_val(t),
        10,
        digits_val(t.drop_last()),
        d,
    );
}

/// Whether two strings hold the same characters.
pub fn str_eq(a: &str, b: &str) -> (r: bool)
    ensures
        r == (a@ == b@),
{
    let na = a.unicode_len();
    let nb = b.unicode_len();
    if na != nb {
        proof {
            assert(a@ != b@);
        }
        return false;
    }
    let r = has_pattern_at(a, b, 0);
    proof {
        if r {
            assert(a@.subrange(0, b@.len() as int) =~= a@);
        } else {
            if a@ == b@ {
                assert(a@.subrange(0, b@.len() as int) =~= b@);
            }
        }
    }
    r
}

/// A digit run bracketed by its bounds: all digits inside, none right
/// after.
pub proof fn lemma_run_end_exact(s: Seq<char>, j: int, k: int)
    requires
        0 <= j <= k <= s.len(),
        forall|m: int| j <= m < k ==> is_digit(#[trigger] s[m]),
        k == s.len() || !is_digit(s[k]),
    ensures
        run_end(s, j) == k,
    decreases k - j,
{
    if j < k {
        lemma_run_end_exact(s, j + 1, k);
    }
}

} // verus!
