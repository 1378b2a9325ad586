//! Comparing, reading and writing text.

use vstd::prelude::*;
use vstd::string::{StrSliceExecFns, StringExecFns};

verus! {

/// Whether two strings hold the same characters.
pub fn same(a: &str, b: &str) -> (r: bool)
    ensures
        r == (a@ == b@),
{
    a.to_owned() == b.to_owned()
}

/// The characters of a string.
pub fn chars_of(s: &str) -> (r: Vec<char>)
    ensures
        r@ == s@,
{
    let count: usize = s.unicode_len();
    let mut r: Vec<char> = Vec::with_capacity(count);
    let mut i: usize = 0;
    while i < count
        invariant
            i <= count,
            count == s@.len(),
            r@ == s@.take(i as int),
        decreases count - i,
    {
        r.push(s.get_char(i));
        i += 1;
        proof {
            assert(r@ =~= s@.take(i as int));
        }
    }
    proof {
        assert(s@.take(count as int) =~= s@);
    }
    r
}

/// The character of a decimal digit.
pub open spec fn digit(d: int) -> char {
    (48 + d) as char
}

/// A number in decimal, without leading zeros.
pub open spec fn decimal(n: nat) -> Seq<char>
    decreases n,
{
    if n < 10 {
        seq![digit(n as int)]
    } else {
        decimal(n / 10).push(digit((n % 10) as int))
    }
}

fn push_digit(out: &mut String, d: u64)
    requires
        d < 10,
    ensures
        final(out)@ == old(out)@.push(digit(d as int)),
{
    proof {
        reveal_strlit("0");
        reveal_strlit("1");
        reveal_strlit("2");
        reveal_strlit("3");
        reveal_strlit("4");
        reveal_strlit("5");
        reveal_strlit("6");
        reveal_strlit("7");
        reveal_strlit("8");
        reveal_strlit("9");
    }
    let ghost before = out@;
    match d {
        0 => out.append("0"),
        1 => out.append("1"),
        2 => out.append("2"),
        3 => out.append("3"),
        4 => out.append("4"),
        5 => out.append("5"),
        6 => out.append("6"),
        7 => out.append("7"),
        8 => out.append("8"),
        _ => out.append("9"),
    }
    proof {
        assert(out@ =~= before.push(digit(d as int)));
    }
}

/// Appends a number in decimal.
pub fn push_decimal(out: &mut String, n: u64)
    ensures
        final(out)@ == old(out)@ + decimal(n as nat),
    decreases n,
{
    let ghost before = out@;
    if n >= 10 {
        push_decimal(out, n / 10);
    }
    push_digit(out, n % 10);
    proof {
        assert(out@ =~= before + decimal(n as nat));
    }
}

/// Whether a character separates words: the Unicode characters with the `White_Space` property.
pub open spec fn blank(c: char) -> bool {
    let n = c as u32;
    ||| n == 0x20
    ||| 0x09 <= n <= 0x0D
    ||| n == 0x85
    ||| n == 0xA0
    ||| n == 0x1680
    ||| 0x2000 <= n <= 0x200A
    ||| n == 0x2028
    ||| n == 0x2029
    ||| n == 0x202F
    ||| n == 0x205F
    ||| n == 0x3000
}

pub fn is_blank(c: char) -> (r: bool)
    ensures
        r == blank(c),
{
    let n: u32 = c as u32;
    n == 0x20 || (0x09 <= n && n <= 0x0D) || n == 0x85 || n == 0xA0 || n == 0x1680 || (0x2000 <= n
        && n <= 0x200A) || n == 0x2028 || n == 0x2029 || n == 0x202F || n == 0x205F || n == 0x3000
}

/// What is left of a text after its leading blanks.
pub open spec fn unindented(s: Seq<char>) -> Seq<char>
    decreases s.len(),
{
    if s.len() > 0 && blank(s[0]) {
        unindented(s.skip(1))
    } else {
        s
    }
}

/// A text up to its first blank.
pub open spec fn leading_word(s: Seq<char>) -> Seq<char>
    decreases s.len(),
{
    if s.len() == 0 || blank(s[0]) {
        Seq::empty()
    } else {
        seq![s[0]] + leading_word(s.skip(1))
    }
}

/// The first word of a text, if it has one.
pub open spec fn first_word(s: Seq<char>) -> Option<Seq<char>> {
    if unindented(s).len() == 0 {
        None
    } else {
        Some(leading_word(unindented(s)))
    }
}

pub open spec fn is_digit(c: char) -> bool {
    48 <= c as u32 <= 57
}

/// The value of a run of decimal digits.
pub open spec fn digits_value(s: Seq<char>) -> nat
    decreases s.len(),
{
    if s.len() == 0 {
        0
    } else {
        digits_value(s.drop_last()) * 10 + (s.last() as u32 - 48) as nat
    }
}

pub open spec fn all_digits(s: Seq<char>) -> bool {
    forall|i: int| 0 <= i < s.len() ==> is_digit(#[trigger] s[i])
}

/// A text without the plus sign that may start it.
pub open spec fn unsigned(s: Seq<char>) -> Seq<char> {
    if s.len() > 0 && s[0] == '+' {
        s.skip(1)
    } else {
        s
    }
}

/// A number in decimal, with or without a plus sign, that is at most `max`.
pub open spec fn number(s: Seq<char>, max: nat) -> Option<nat> {
    let digits = unsigned(s);
    if digits.len() == 0 || !all_digits(digits) || digits_value(digits) > max {
        None
    } else {
        Some(digits_value(digits))
    }
}

proof fn lemma_digits_value_grows(s: Seq<char>, n: int)
    requires
        0 <= n <= s.len(),
        all_digits(s),
    ensures
        digits_value(s.take(n)) <= digits_value(s),
    decreases s.len() - n,
{
    if n < s.len() {
        assert(s.take(n + 1).drop_last() =~= s.take(n));
        assert(is_digit(s[n]));
        lemma_digits_value_grows(s, n + 1);
    } else {
        assert(s.take(n) =~= s);
    }
}

/// A digit more is worth ten times what is before it: the value of a run of digits is that of its
/// first part, moved up by a place for each digit behind it, and that of the rest.
pub proof fn lemma_digits_value(a: Seq<char>, b: Seq<char>)
    requires
        all_digits(b),
    ensures
        digits_value(a + b) == digits_value(a) * vstd::arithmetic::power::pow(10, b.len())
            + digits_value(b),
        b.len() == 1 ==> digits_value(b) == b[0] as u32 - 48,
    decreases b.len(),
{
    if b.len() == 0 {
        assert(a + b =~= a);
        vstd::arithmetic::power::lemma_pow0(10);
    } else {
        let rest = b.drop_last();
        assert(all_digits(rest));
        lemma_digits_value(a, rest);
        assert((a + b).drop_last() =~= a + rest);
        assert(is_digit(b[b.len() - 1]));
        let p = vstd::arithmetic::power::pow(10, rest.len());
        assert(vstd::arithmetic::power::pow(10, b.len()) == 10 * p) by {
            vstd::arithmetic::power::lemma_pow1(10);
            vstd::arithmetic::power::lemma_pow_adds(10, 1, rest.len());
        }
        let v = digits_value(a) as int;
        assert((v * p) * 10 == v * (10 * p)) by (nonlinear_arith);
        if b.len() == 1 {
            assert(digits_value(rest) == 0);
        }
    }
}

/// A number in decimal is made of digits, stands for that number, and does not start with a zero
/// unless it is one.
pub proof fn lemma_decimal(n: nat)
    ensures
        decimal(n).len() >= 1,
        all_digits(decimal(n)),
        digits_value(decimal(n)) == n,
        decimal(n)[0] == '0' <==> n == 0,
        n == 0 ==> decimal(n).len() == 1,
    decreases n,
{
    if n < 10 {
        assert(decimal(n).drop_last() =~= Seq::empty());
        assert(digits_value(decimal(n).drop_last()) == 0);
    } else {
        lemma_decimal(n / 10);
        let rest = decimal(n / 10);
        assert(decimal(n).drop_last() =~= rest);
        assert forall|i: int| 0 <= i < decimal(n).len() implies is_digit(
            #[trigger] decimal(n)[i],
        ) by {
            if i < rest.len() {
                assert(is_digit(rest[i]));
            }
        }
        assert(decimal(n)[0] == rest[0]);
    }
}

/// A number that was written in decimal is read back, unless it is above the limit.
pub proof fn lemma_number_reads_back(n: nat, max: nat)
    ensures
        number(decimal(n), max) == if n <= max {
            Some(n)
        } else {
            None
        },
        number(seq!['+'] + decimal(n), max) == number(decimal(n), max),
{
    lemma_decimal(n);
    assert(is_digit(decimal(n)[0]));
    assert((seq!['+'] + decimal(n)).skip(1) =~= decimal(n));
}

/// What reads as a number is a run of digits behind at most one plus sign, with a value up to the
/// limit.
pub proof fn lemma_number(s: Seq<char>, max: nat)
    ensures
        match number(s, max) {
            Some(n) => {
                let signed = s.len() > 0 && s[0] == '+';
                let digits = if signed {
                    s.skip(1)
                } else {
                    s
                };
                &&& n <= max
                &&& n == digits_value(digits)
                &&& digits.len() >= 1
                &&& forall|i: int|
                    0 <= i < digits.len() ==> 48 <= (#[trigger] digits[i]) as u32 <= 57
            },
            None => {
                ||| s.len() == 0
                ||| s.len() == 1 && s[0] == '+'
                ||| exists|i: int|
                    0 <= i < s.len() && !(48 <= (#[trigger] s[i]) as u32 <= 57) && (i > 0 || s[i]
                        != '+')
                ||| digits_value(s) > max
                ||| s[0] == '+' && digits_value(s.skip(1)) > max
            },
        },
{
    let digits = unsigned(s);
    if number(s, max) is None && digits.len() > 0 && !all_digits(digits) {
        let i = choose|i: int| 0 <= i < digits.len() && !is_digit(#[trigger] digits[i]);
        if s[0] == '+' {
            assert(s[i + 1] == digits[i]);
        } else {
            assert(s[i] == digits[i]);
        }
    }
    if number(s, max) is Some {
        assert forall|i: int| 0 <= i < digits.len() implies 48 <= (
        #[trigger] digits[i]) as u32 <= 57 by {
            assert(is_digit(digits[i]));
        }
    }
}

/// The first word of a text: nothing but blanks before it, no blank in it, and a blank or the end of
/// the text behind it. A text without one is all blanks.
pub proof fn lemma_first_word(s: Seq<char>)
    ensures
        match first_word(s) {
            Some(word) => exists|a: int, b: int|
                0 <= a < b <= s.len() && #[trigger] s.subrange(a, b) == word && (forall|i: int|
                    0 <= i < a ==> blank(#[trigger] s[i])) && (forall|i: int|
                    a <= i < b ==> !blank(#[trigger] s[i])) && (b < s.len() ==> blank(s[b])),
            None => forall|i: int| 0 <= i < s.len() ==> blank(#[trigger] s[i]),
        },
    decreases s.len(),
{
    if s.len() > 0 && blank(s[0]) {
        let t = s.skip(1);
        lemma_first_word(t);
        assert(first_word(s) == first_word(t));
        match first_word(s) {
            Some(word) => {
                let (a, b) = choose|a: int, b: int|
                    0 <= a < b <= t.len() && #[trigger] t.subrange(a, b) == word && (forall|i: int|
                        0 <= i < a ==> blank(#[trigger] t[i])) && (forall|i: int|
                        a <= i < b ==> !blank(#[trigger] t[i])) && (b < t.len() ==> blank(t[b]));
                assert(s.subrange(a + 1, b + 1) =~= t.subrange(a, b));
                assert forall|i: int| 0 <= i < a + 1 implies blank(#[trigger] s[i]) by {
                    if i > 0 {
                        assert(t[i - 1] == s[i]);
                    }
                }
                assert forall|i: int| a + 1 <= i < b + 1 implies !blank(#[trigger] s[i]) by {
                    assert(t[i - 1] == s[i]);
                }
                if b + 1 < s.len() {
                    assert(t[b] == s[b + 1]);
                }
            },
            None => {
                assert forall|i: int| 0 <= i < s.len() implies blank(#[trigger] s[i]) by {
                    if i > 0 {
                        assert(t[i - 1] == s[i]);
                    }
                }
            },
        }
    } else if s.len() > 0 {
        lemma_leading_word(s);
        let b = leading_word(s).len() as int;
        assert(s.subrange(0, b) == leading_word(s));
        assert(b > 0);
    }
}

proof fn lemma_leading_word(s: Seq<char>)
    ensures
        leading_word(s).len() <= s.len(),
        leading_word(s) == s.subrange(0, leading_word(s).len() as int),
        forall|i: int| 0 <= i < leading_word(s).len() ==> !blank(#[trigger] s[i]),
        leading_word(s).len() < s.len() ==> blank(s[leading_word(s).len() as int]),
    decreases s.len(),
{
    if s.len() > 0 && !blank(s[0]) {
        let t = s.skip(1);
        lemma_leading_word(t);
        assert(leading_word(s) =~= s.subrange(0, leading_word(s).len() as int));
        assert forall|i: int| 0 <= i < leading_word(s).len() implies !blank(#[trigger] s[i]) by {
            if i > 0 {
                assert(t[i - 1] == s[i]);
            }
        }
        if leading_word(s).len() < s.len() {
            assert(t[leading_word(t).len() as int] == s[leading_word(s).len() as int]);
        }
    }
}

/// Words are told apart by blanks: of a word with blanks before it and one behind it, the first word
/// is that word.
pub proof fn lemma_word_found(indent: Seq<char>, word: Seq<char>, rest: Seq<char>)
    requires
        forall|i: int| 0 <= i < indent.len() ==> blank(#[trigger] indent[i]),
        word.len() > 0,
        forall|i: int| 0 <= i < word.len() ==> !blank(#[trigger] word[i]),
        rest.len() > 0 ==> blank(rest[0]),
    ensures
        first_word(indent + word + rest) == Some(word),
{
    let s = indent + word + rest;
    lemma_first_word(s);
    let b = (indent.len() + word.len()) as int;
    assert(s[indent.len() as int] == word[0]);
    assert(!blank(s[indent.len() as int]));
    let found = first_word(s)->0;
    let (x, y) = choose|x: int, y: int|
        0 <= x < y <= s.len() && #[trigger] s.subrange(x, y) == found && (forall|i: int|
            0 <= i < x ==> blank(#[trigger] s[i])) && (forall|i: int|
            x <= i < y ==> !blank(#[trigger] s[i])) && (y < s.len() ==> blank(s[y]));
    assert(x == indent.len()) by {
        if x < indent.len() {
            assert(s[x] == indent[x]);
        }
        if x > indent.len() {
            assert(blank(s[indent.len() as int]));
        }
    }
    assert(y == b) by {
        if y < b {
            assert(s[y] == word[y - x]);
        }
        if y > b {
            assert(s[b] == rest[0]);
            assert(!blank(s[b]));
        }
    }
    assert(s.subrange(x, y) =~= word);
}

/// Reads a number that is at most `max`.
pub fn parse_number(s: &[char], max: u64) -> (r: Option<u64>)
    ensures
        match r {
            Some(n) => number(s@, max as nat) == Some(n as nat),
            None => number(s@, max as nat) is None,
        },
{
    let plus = s.len() > 0 && s[0] == '+';
    let start: usize = if plus {
        1
    } else {
        0
    };
    let ghost digits = unsigned(s@);
    if s.len() == start {
        return None;
    }
    let mut n: u64 = 0;
    let mut i: usize = start;
    while i < s.len()
        invariant
            start <= i <= s@.len(),
            start <= 1,
            digits.len() == s@.len() - start,
            digits.len() > 0,
            digits == unsigned(s@),
            forall|j: int| 0 <= j < digits.len() ==> digits[j] == #[trigger] s@[j + start],
            forall|j: int| 0 <= j < i - start ==> is_digit(#[trigger] digits[j]),
            n == digits_value(digits.take(i - start)),
            n <= max,
        decreases s@.len() - i,
    {
        let c: char = s[i];
        let ghost at = i - start;
        assert(digits[at] == s@[at + start]);
        let code: u32 = c as u32;
        if code < 48 || code > 57 {
            proof {
                assert(!is_digit(digits[at]));
            }
            return None;
        }
        let d: u64 = (code - 48) as u64;
        proof {
            assert(digits.take(at + 1).drop_last() =~= digits.take(at));
            assert(digits.take(at + 1).last() == c);
        }
        let next: Option<u64> = match n.checked_mul(10) {
            None => None,
            Some(tens) => tens.checked_add(d),
        };
        match next {
            Some(value) => {
                if value > max {
                    proof {
                        if all_digits(digits) {
                            lemma_digits_value_grows(digits, at + 1);
                        }
                    }
                    return None;
                }
                n = value;
            },
            None => {
                proof {
                    if all_digits(digits) {
                        lemma_digits_value_grows(digits, at + 1);
                    }
                }
                return None;
            },
        }
        i += 1;
    }
    proof {
        assert(digits.take(i - start) =~= digits);
    }
    Some(n)
}

} // verus!
