//! Decimal text of integers, as the picture of a tree writes them.

use vstd::prelude::*;

verus! {

/// The character for one decimal digit.
pub open spec fn digit(d: int) -> char
    recommends
        0 <= d < 10,
{
    ((48 + d) as u8) as char
}

/// The decimal digits of `n`, most significant first, without leading
/// zeros; `0` is written as one digit.
pub open spec fn digits(n: nat) -> Seq<char>
    decreases n,
{
    if n < 10 {
        seq![digit(n as int)]
    } else {
        digits(n / 10).push(digit((n % 10) as int))
    }
}

/// The decimal text of `v`: its digits, after a minus sign if it is
/// negative.
pub open spec fn decimal(v: int) -> Seq<char> {
    if v < 0 {
        seq!['-'] + digits((-v) as nat)
    } else {
        digits(v as nat)
    }
}

/// The digits that stand before the last one: none for a number below ten.
pub open spec fn leading(n: nat) -> Seq<char> {
    if n == 0 {
        Seq::empty()
    } else {
        digits(n)
    }
}

/// Every number is written as the digits of its tenth part, followed by
/// its last digit.
pub proof fn lemma_digits_step(n: nat)
    ensures
        digits(n) == leading(n / 10).push(digit((n % 10) as int)),
{
    if n < 10 {
    }
}

/// A greater number is not written with fewer digits.
pub proof fn lemma_digits_grow(a: nat, b: nat)
    requires
        a <= b,
    ensures
        digits(a).len() <= digits(b).len(),
    decreases b,
{
    if b >= 10 {
        if a >= 10 {
            lemma_digits_grow(a / 10, b / 10);
        } else {
            lemma_digits_grow(0, b / 10);
        }
    }
}

/// The `k`-th power of ten.
pub open spec fn ten_to(k: nat) -> nat
    decreases k,
{
    if k == 0 {
        1
    } else {
        10 * ten_to((k - 1) as nat)
    }
}

/// A number below the `k`-th power of ten has `k` digits at most, and every
/// number has one at least.
pub proof fn lemma_digits_len(n: nat, k: nat)
    requires
        k >= 1,
        n < ten_to(k),
    ensures
        1 <= digits(n).len() <= k,
    decreases k,
{
    if n >= 10 {
        if k == 1 {
            // ten_to(1) is 10: no such number
            assert(ten_to(1) == 10 * ten_to(0));
        } else {
            lemma_digits_len(n / 10, (k - 1) as nat);
        }
    }
}

/// The decimal text of an `i32` has eleven characters at most, ten if it is
/// not negative.
pub proof fn lemma_decimal_len(v: int)
    requires
        i32::MIN <= v <= i32::MAX,
    ensures
        1 <= decimal(v).len() <= 11,
        v >= 0 ==> decimal(v).len() <= 10,
{
    assert(ten_to(10) == 10_000_000_000) by {
        reveal_with_fuel(ten_to, 11);
    }
    if v < 0 {
        lemma_digits_len((-v) as nat, 10);
    } else {
        lemma_digits_len(v as nat, 10);
    }
}

/// The character for the digit `d`.
fn digit_char(d: u8) -> (c: char)
    requires
        d < 10,
    ensures
        c == digit(d as int),
{
    (48u8 + d) as char
}

/// The decimal text of `v`.
pub fn decimal_text(v: i32) -> (text: Vec<char>)
    ensures
        text@ == decimal(v as int),
{
    let wide: i64 = v as i64;
    let magnitude: i64 = if wide < 0 {
        -wide
    } else {
        wide
    };
    let mut text: Vec<char> = Vec::new();
    text.push(digit_char((magnitude % 10) as u8));
    let mut rest: i64 = magnitude / 10;
    proof {
        lemma_digits_step(magnitude as nat);
    }
    while rest > 0
        invariant
            0 <= rest,
            digits(magnitude as nat) == leading(rest as nat) + text@,
        decreases rest,
    {
        proof {
            lemma_digits_step(rest as nat);
        }
        text.insert(0, digit_char((rest % 10) as u8));
        rest = rest / 10;
    }
    if v < 0 {
        text.insert(0, '-');
    }
    text
}

/// `String::push` of the standard library: the string is afterwards what
/// it was, with `c` as one more character at its end.
#[verifier::external_body]
fn push_char(text: &mut String, c: char)
    ensures
        final(text)@ == old(text)@.push(c),
{
    text.push(c)
}

/// The characters of `chars` as a `String`.
pub fn string_of(chars: &Vec<char>) -> (text: String)
    ensures
        text@ == chars@,
{
    let mut text = String::new();
    let mut done: usize = 0;
    while done < chars.len()
        invariant
            done <= chars.len(),
            text@ == chars@.take(done as int),
        decreases chars.len() - done,
    {
        push_char(&mut text, chars[done]);
        done += 1;
    }
    text
}

} // verus!
