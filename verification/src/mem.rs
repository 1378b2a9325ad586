//! Memory statistics and how they are reported.

use vstd::prelude::*;
use vstd::string::StringExecFns;

use crate::text::{self, chars_of, decimal, first_word, is_blank, number, push_decimal};

verus! {

/// Calls `std::vec::Vec::capacity`: how many elements fit without allocating again, which is never
/// fewer than there are. How much more the allocator gave is not said.
#[verifier::external_body]
pub(crate) fn capacity_of<T>(v: &Vec<T>) -> (r: usize)
    ensures
        r >= v@.len(),
{
    v.capacity()
}

/// The number, or the largest one that there is.
pub open spec fn clamped(n: int) -> usize {
    if n <= usize::MAX {
        n as usize
    } else {
        usize::MAX
    }
}

/// What a list with room for `capacity` elements of `width` bytes takes.
pub open spec fn list_bytes(capacity: usize, width: usize) -> usize {
    clamped(capacity * width)
}

/// The bytes that `capacity` elements of `width` bytes take, or the largest number there is.
pub fn bytes_for(capacity: usize, width: usize) -> (r: usize)
    ensures
        r == list_bytes(capacity, width),
{
    match capacity.checked_mul(width) {
        Some(bytes) => bytes,
        None => usize::MAX,
    }
}

/// Resident set size of a process.
#[derive(Clone, Copy, Debug, PartialEq, Eq, Structural)]
pub struct MemoryUsage {
    /// Current resident set size.
    pub current_bytes: u64,
    /// Peak resident set size since the process started.
    pub peak_bytes: u64,
}

/// The text before the first newline.
pub open spec fn line_end(s: Seq<char>) -> int
    decreases s.len(),
{
    if s.len() == 0 || s[0] == '\n' {
        0
    } else {
        1 + line_end(s.skip(1))
    }
}

/// A line without the carriage return that may end it.
pub open spec fn line_text(s: Seq<char>) -> Seq<char> {
    let line = s.take(line_end(s));
    if line_end(s) < s.len() && line.len() > 0 && line.last() == '\r' {
        line.drop_last()
    } else {
        line
    }
}

/// The first line of `s` that starts with `field`.
pub open spec fn line_starting(s: Seq<char>, field: Seq<char>) -> Option<Seq<char>>
    decreases s.len(),
{
    proof {
        lemma_line_end(s);
    }
    if s.len() == 0 {
        None
    } else if field.is_prefix_of(line_text(s)) {
        Some(line_text(s))
    } else if line_end(s) < s.len() {
        line_starting(s.skip(line_end(s) + 1), field)
    } else {
        None
    }
}

/// A line ends at its first newline, or with the text.
pub proof fn lemma_line_end(s: Seq<char>)
    ensures
        0 <= line_end(s) <= s.len(),
        line_end(s) < s.len() ==> s[line_end(s)] == '\n',
        forall|i: int| 0 <= i < line_end(s) ==> s[i] != '\n',
    decreases s.len(),
{
    if s.len() > 0 && s[0] != '\n' {
        lemma_line_end(s.skip(1));
        assert forall|i: int| 0 <= i < line_end(s) implies s[i] != '\n' by {
            if i > 0 {
                assert(s[i] == s.skip(1)[i - 1]);
            }
        }
    }
}

proof fn lemma_line_end_at(s: Seq<char>, at: int)
    requires
        0 <= at <= s.len(),
        at < s.len() ==> s[at] == '\n',
        forall|i: int| 0 <= i < at ==> s[i] != '\n',
    ensures
        line_end(s) == at,
{
    lemma_line_end(s);
    if line_end(s) < at {
        assert(s[line_end(s)] != '\n');
    }
    if at < line_end(s) {
        assert(s[at] != '\n');
    }
}

/// The kilobytes of a field of a process status text, in bytes: the first word after the field's
/// name on the first line that starts with it.
pub open spec fn kb_field(status: Seq<char>, field: Seq<char>) -> Option<nat> {
    match line_starting(status, field) {
        None => None,
        Some(line) => match first_word(line.skip(field.len() as int)) {
            None => None,
            Some(word) => match number(word, u64::MAX as nat) {
                None => None,
                Some(n) => if n * 1024 <= u64::MAX {
                    Some(n * 1024)
                } else {
                    None
                },
            },
        },
    }
}

/// Whether `field` starts the text from `start` up to `end`.
fn starts_with(s: &Vec<char>, start: usize, end: usize, field: &Vec<char>) -> (r: bool)
    requires
        start <= end <= s@.len(),
    ensures
        r == field@.is_prefix_of(s@.subrange(start as int, end as int)),
{
    if field.len() > end - start {
        return false;
    }
    let ghost line = s@.subrange(start as int, end as int);
    let mut i: usize = 0;
    while i < field.len()
        invariant
            i <= field@.len(),
            field@.len() <= end - start,
            start <= end <= s@.len(),
            line == s@.subrange(start as int, end as int),
            forall|j: int| 0 <= j < i ==> field@[j] == line[j],
        decreases field@.len() - i,
    {
        if s[start + i] != field[i] {
            proof {
                assert(line[i as int] == s@[start + i]);
                assert(line.take(field@.len() as int)[i as int] != field@[i as int]);
            }
            return false;
        }
        i += 1;
    }
    proof {
        assert(field@ =~= line.take(field@.len() as int));
    }
    true
}

/// The first word of the text from `start` up to `end`.
fn word_in(s: &Vec<char>, start: usize, end: usize) -> (r: Option<(usize, usize)>)
    requires
        start <= end <= s@.len(),
    ensures
        match r {
            Some((a, b)) => {
                &&& a <= b <= s@.len()
                &&& first_word(s@.subrange(start as int, end as int)) == Some(
                    s@.subrange(a as int, b as int),
                )
            },
            None => first_word(s@.subrange(start as int, end as int)) is None,
        },
{
    let ghost whole = s@.subrange(start as int, end as int);
    let mut a: usize = start;
    while a < end && is_blank(s[a])
        invariant
            start <= a <= end <= s@.len(),
            text::unindented(s@.subrange(a as int, end as int)) == text::unindented(whole),
        decreases end - a,
    {
        proof {
            assert(s@.subrange(a as int, end as int).skip(1) =~= s@.subrange(a + 1, end as int));
        }
        a += 1;
    }
    if a == end {
        return None;
    }
    let ghost rest = s@.subrange(a as int, end as int);
    let mut b: usize = a;
    while b < end && !is_blank(s[b])
        invariant
            a <= b <= end <= s@.len(),
            rest == s@.subrange(a as int, end as int),
            text::leading_word(rest) == s@.subrange(a as int, b as int) + text::leading_word(
                s@.subrange(b as int, end as int),
            ),
        decreases end - b,
    {
        proof {
            let tail = s@.subrange(b as int, end as int);
            assert(tail.skip(1) =~= s@.subrange(b + 1, end as int));
            assert(s@.subrange(a as int, b as int) + (seq![tail[0]] + text::leading_word(
                tail.skip(1),
            )) =~= s@.subrange(a as int, b + 1) + text::leading_word(tail.skip(1)));
        }
        b += 1;
    }
    proof {
        assert(text::leading_word(s@.subrange(b as int, end as int)) =~= Seq::empty());
        assert(text::leading_word(rest) =~= s@.subrange(a as int, b as int));
    }
    Some((a, b))
}

/// Pulls `123456` out of a status line such as `VmRSS:\t  123456 kB` and returns it in bytes.
pub fn parse_kb_field(status: &str, field: &str) -> (r: Option<u64>)
    ensures
        match r {
            Some(bytes) => kb_field(status@, field@) == Some(bytes as nat),
            None => kb_field(status@, field@) is None,
        },
{
    let s = chars_of(status);
    let name = chars_of(field);
    let mut start: usize = 0;
    proof {
        assert(s@.skip(0) =~= s@);
    }
    while start < s.len()
        invariant
            start <= s@.len(),
            s@ == status@,
            name@ == field@,
            line_starting(s@.skip(start as int), field@) == line_starting(status@, field@),
        decreases s@.len() - start,
    {
        let ghost rest = s@.skip(start as int);
        let mut end: usize = start;
        while end < s.len() && s[end] != '\n'
            invariant
                start <= end <= s@.len(),
                forall|i: int| start <= i < end ==> s@[i] != '\n',
            decreases s@.len() - end,
        {
            end += 1;
        }
        proof {
            lemma_line_end_at(rest, end - start);
        }
        let mut stop: usize = end;
        if end < s.len() && end > start && s[end - 1] == '\r' {
            stop = end - 1;
        }
        proof {
            assert(line_text(rest) =~= s@.subrange(start as int, stop as int));
        }
        if starts_with(&s, start, stop, &name) {
            let from: usize = start + name.len();
            proof {
                assert(line_text(rest).skip(field@.len() as int) =~= s@.subrange(
                    from as int,
                    stop as int,
                ));
            }
            return match word_in(&s, from, stop) {
                None => None,
                Some((a, b)) => {
                    let word = vstd::slice::slice_subrange(s.as_slice(), a, b);
                    match text::parse_number(word, u64::MAX) {
                        None => None,
                        Some(kilobytes) => kilobytes.checked_mul(1024),
                    }
                },
            };
        }
        if end == s.len() {
            return None;
        }
        proof {
            assert(rest.skip(end - start + 1) =~= s@.skip(end + 1));
        }
        start = end + 1;
    }
    None
}

/// The resident set size that a process status text tells of: its `VmRSS` and `VmHWM` fields.
/// `None` where there is no such text, or it lacks one of them.
pub fn resident_set_size(status: Option<&str>) -> (r: Option<MemoryUsage>)
    ensures
        match r {
            Some(usage) => {
                &&& status is Some
                &&& kb_field(status->0@, "VmRSS:"@) == Some(usage.current_bytes as nat)
                &&& kb_field(status->0@, "VmHWM:"@) == Some(usage.peak_bytes as nat)
            },
            None => status is None || kb_field(status->0@, "VmRSS:"@) is None || kb_field(
                status->0@,
                "VmHWM:"@,
            ) is None,
        },
{
    match status {
        None => None,
        Some(status) => match parse_kb_field(status, "VmRSS:") {
            None => None,
            Some(current_bytes) => match parse_kb_field(status, "VmHWM:") {
                None => None,
                Some(peak_bytes) => Some(MemoryUsage { current_bytes, peak_bytes }),
            },
        },
    }
}

/// `n / d` rounded to the nearest integer, and to the even one of two that are equally near.
pub open spec fn nearest(n: int, d: int) -> int {
    let q = n / d;
    let r = n % d;
    if 2 * r > d || (2 * r == d && q % 2 == 1) {
        q + 1
    } else {
        q
    }
}

/// How many of the lowest bits of `n` a number with 53 significant bits cannot hold.
pub open spec fn excess_step(n: int) -> int {
    if n < 0x20_0000_0000_0000 {
        1
    } else if n < 0x40_0000_0000_0000 {
        2
    } else if n < 0x80_0000_0000_0000 {
        4
    } else if n < 0x100_0000_0000_0000 {
        8
    } else if n < 0x200_0000_0000_0000 {
        16
    } else if n < 0x400_0000_0000_0000 {
        32
    } else if n < 0x800_0000_0000_0000 {
        64
    } else if n < 0x1000_0000_0000_0000 {
        128
    } else if n < 0x2000_0000_0000_0000 {
        256
    } else if n < 0x4000_0000_0000_0000 {
        512
    } else if n < 0x8000_0000_0000_0000 {
        1024
    } else {
        2048
    }
}

/// A byte count as a double-precision number holds it: with 53 significant bits.
pub open spec fn as_double(bytes: u64) -> int {
    nearest(bytes as int, excess_step(bytes as int)) * excess_step(bytes as int)
}

/// The largest unit that fits a byte count at least once, as its number of bytes; never more than
/// a tebibyte.
pub open spec fn unit_bytes(value: int) -> int {
    if value < 1024 {
        1
    } else if value < 0x10_0000 {
        1024
    } else if value < 0x4000_0000 {
        0x10_0000
    } else if value < 0x100_0000_0000 {
        0x4000_0000
    } else {
        0x100_0000_0000
    }
}

pub open spec fn unit_name(unit: int) -> Seq<char> {
    if unit == 1024 {
        " KiB"@
    } else if unit == 0x10_0000 {
        " MiB"@
    } else if unit == 0x4000_0000 {
        " GiB"@
    } else {
        " TiB"@
    }
}

/// A byte count for people: whole bytes below a kibibyte, else one decimal of the largest unit
/// that fits.
pub open spec fn human(bytes: u64) -> Seq<char> {
    let value = as_double(bytes);
    let unit = unit_bytes(value);
    let tenths = nearest(value * 10, unit);
    if unit == 1 {
        decimal(bytes as nat) + " B"@
    } else {
        decimal((tenths / 10) as nat) + "."@ + decimal((tenths % 10) as nat) + unit_name(unit)
    }
}

fn nearest_of(n: u128, d: u128) -> (r: u128)
    requires
        d >= 1,
        n <= 0xFFFF_FFFF_FFFF_FFFF_FFFF,
        d <= 0xFFFF_FFFF_FFFF_FFFF,
    ensures
        r == nearest(n as int, d as int),
{
    let q: u128 = n / d;
    let r: u128 = n % d;
    proof {
        assert(q <= n) by (nonlinear_arith)
            requires
                q == n / d,
                d >= 1,
        ;
    }
    if 2 * r > d || (2 * r == d && q % 2 == 1) {
        q + 1
    } else {
        q
    }
}

fn excess_step_of(n: u64) -> (r: u64)
    ensures
        r == excess_step(n as int),
{
    if n < 0x20_0000_0000_0000 {
        1
    } else if n < 0x40_0000_0000_0000 {
        2
    } else if n < 0x80_0000_0000_0000 {
        4
    } else if n < 0x100_0000_0000_0000 {
        8
    } else if n < 0x200_0000_0000_0000 {
        16
    } else if n < 0x400_0000_0000_0000 {
        32
    } else if n < 0x800_0000_0000_0000 {
        64
    } else if n < 0x1000_0000_0000_0000 {
        128
    } else if n < 0x2000_0000_0000_0000 {
        256
    } else if n < 0x4000_0000_0000_0000 {
        512
    } else if n < 0x8000_0000_0000_0000 {
        1024
    } else {
        2048
    }
}

/// A quotient that is rounded is off by no more than half, and by exactly half only if it is even.
pub proof fn lemma_nearest(n: int, d: int)
    requires
        d >= 1,
        0 <= n,
    ensures
        -d <= 2 * (nearest(n, d) * d - n) <= d,
        2 * (nearest(n, d) * d - n) == d || 2 * (nearest(n, d) * d - n) == -d ==> nearest(n, d) % 2
            == 0,
{
    vstd::arithmetic::div_mod::lemma_fundamental_div_mod(n, d);
    vstd::arithmetic::div_mod::lemma_mod_bound(n, d);
    let q = n / d;
    assert(d * q == q * d && (q + 1) * d == q * d + d) by (nonlinear_arith);
}

/// A count below two to the fifty-third is held as it is; above, so many bits are left out that 53
/// are left.
pub proof fn lemma_excess_step(n: int)
    requires
        0 <= n <= 0xFFFF_FFFF_FFFF_FFFF,
    ensures
        n < 0x20_0000_0000_0000 ==> excess_step(n) == 1,
        n >= 0x20_0000_0000_0000 ==> 0x10_0000_0000_0000 <= n / excess_step(n)
            < 0x20_0000_0000_0000,
        2048int % excess_step(n) == 0,
{
}

/// The unit of a byte count is the largest one that it has at least one of: bytes, or a power of
/// 1024 up to the fourth.
pub proof fn lemma_unit_bytes(value: int)
    requires
        0 <= value,
    ensures
        ({
            let unit = unit_bytes(value);
            &&& unit == 1 || unit == 1024 || unit == 1024 * 1024 || unit == 1024 * 1024 * 1024
                || unit == 1024 * 1024 * 1024 * 1024
            &&& unit <= value || unit == 1
            &&& value < 1024 * unit || unit == 1024 * 1024 * 1024 * 1024
        }),
{
}

/// What a byte count reads as: below a kibibyte the number itself, and above it the number of tenths
/// of its unit that is nearest to it, with a point before the last digit and the unit's name.
pub proof fn lemma_human(bytes: u64)
    ensures
        bytes < 1024 ==> human(bytes) == decimal(bytes as nat) + " B"@,
        bytes >= 1024 && bytes < 0x20_0000_0000_0000 ==> exists|tenths: nat| {
            let unit = unit_bytes(bytes as int);
            &&& -unit <= 2 * (tenths * unit - 10 * bytes) <= unit
            &&& human(bytes) == decimal(tenths / 10) + "."@ + #[trigger] decimal(tenths % 10)
                + if unit == 1024 {
                " KiB"@
            } else if unit == 1024 * 1024 {
                " MiB"@
            } else if unit == 1024 * 1024 * 1024 {
                " GiB"@
            } else {
                " TiB"@
            }
        },
{
    lemma_nearest_close(bytes as int, 1);
    if bytes < 0x20_0000_0000_0000 {
        assert(as_double(bytes) == bytes);
        let unit = unit_bytes(bytes as int);
        lemma_nearest(bytes * 10, unit);
        lemma_unit_bytes(bytes as int);
        let tenths = nearest(bytes * 10, unit);
        if bytes >= 1024 {
            assert(tenths >= 0) by (nonlinear_arith)
                requires
                    2 * (tenths * unit - bytes * 10) >= -unit,
                    unit >= 1,
                    bytes * 10 >= unit,
            ;
            assert(decimal((tenths as nat) % 10) == decimal((tenths % 10) as nat));
            assert(-unit <= 2 * (tenths * unit - 10 * bytes) <= unit);
        }
    }
}

/// Where a line of a text starts.
pub open spec fn starts_line(s: Seq<char>, at: int) -> bool {
    0 <= at < s.len() && (at == 0 || s[at - 1] == '\n')
}

/// A line is the text up to its first newline, without a carriage return before that.
pub proof fn lemma_line_text(s: Seq<char>)
    ensures
        exists|end: int| {
            &&& 0 <= end <= s.len()
            &&& end < s.len() ==> s[end] == '\n'
            &&& forall|i: int| 0 <= i < end ==> s[i] != '\n'
            &&& #[trigger] s.take(end) == if end < s.len() && end > 0 && s[end - 1] == '\r' {
                line_text(s).push('\r')
            } else {
                line_text(s)
            }
        },
{
    lemma_line_end(s);
    let end = line_end(s);
    let line = s.take(end);
    if end < s.len() && end > 0 && s[end - 1] == '\r' {
        assert(line.last() == '\r');
        assert(line =~= line.drop_last().push('\r'));
    }
    assert(s.take(end) == line);
}

/// The lines behind a newline are the lines of the text behind it.
proof fn lemma_lines_behind(s: Seq<char>, end: int, p: int)
    requires
        0 <= end < s.len(),
        s[end] == '\n',
        forall|i: int| 0 <= i < end ==> s[i] != '\n',
    ensures
        starts_line(s, p) && p <= end ==> p == 0,
        p > end ==> (starts_line(s, p) <==> starts_line(s.skip(end + 1), p - end - 1)),
        end < p <= s.len() ==> s.skip(p) == s.skip(end + 1).skip(p - end - 1),
{
    let t = s.skip(end + 1);
    if p > end + 1 && p <= s.len() {
        assert(t[p - end - 2] == s[p - 1]);
    }
    if end < p <= s.len() {
        assert(s.skip(p) =~= t.skip(p - end - 1));
    }
}

/// A line that starts with the field stands at `at`, and none before it does.
pub open spec fn first_line_at(s: Seq<char>, field: Seq<char>, at: int) -> bool {
    &&& starts_line(s, at)
    &&& field.is_prefix_of(line_text(s.skip(at)))
    &&& forall|p: int| #[trigger]
        starts_line(s, p) && p < at ==> !field.is_prefix_of(line_text(s.skip(p)))
}

/// The line that is found is the first that starts with the field: no line before it does. None is
/// found just when no line does.
pub proof fn lemma_line_starting(s: Seq<char>, field: Seq<char>)
    ensures
        match line_starting(s, field) {
            Some(line) => exists|at: int| #[trigger]
                first_line_at(s, field, at) && line == line_text(s.skip(at)),
            None => forall|p: int| #[trigger]
                starts_line(s, p) ==> !field.is_prefix_of(line_text(s.skip(p))),
        },
    decreases s.len(),
{
    lemma_line_end(s);
    let end = line_end(s);
    assert(s.skip(0) =~= s);
    if s.len() > 0 {
        if field.is_prefix_of(line_text(s)) {
            assert(first_line_at(s, field, 0));
        } else if end < s.len() {
            let t = s.skip(end + 1);
            lemma_line_starting(t, field);
            match line_starting(s, field) {
                Some(line) => {
                    let at = choose|at: int| #[trigger]
                        first_line_at(t, field, at) && line == line_text(t.skip(at));
                    let here = at + end + 1;
                    lemma_lines_behind(s, end, here);
                    assert forall|p: int| #[trigger]
                        starts_line(s, p) && p < here implies !field.is_prefix_of(
                        line_text(s.skip(p)),
                    ) by {
                        lemma_lines_behind(s, end, p);
                        if p > end {
                            assert(starts_line(t, p - end - 1));
                        }
                    }
                    assert(first_line_at(s, field, here));
                },
                None => {
                    assert forall|p: int| #[trigger] starts_line(s, p) implies !field.is_prefix_of(
                        line_text(s.skip(p)),
                    ) by {
                        lemma_lines_behind(s, end, p);
                        if p > end {
                            assert(starts_line(t, p - end - 1));
                        }
                    }
                },
            }
        } else {
            assert forall|p: int| #[trigger] starts_line(s, p) implies !field.is_prefix_of(
                line_text(s.skip(p)),
            ) by {
                assert(p == 0);
            }
        }
    }
}

/// A field of so many kilobytes reads as that many times 1024 bytes, and as nothing if that is more
/// than can be held.
pub proof fn lemma_kb_field(field: Seq<char>, n: u64, rest: Seq<char>)
    requires
        forall|i: int| 0 <= i < field.len() ==> field[i] != '\n',
    ensures
        kb_field(field + seq!['\t', ' '] + decimal(n as nat) + " kB\n"@ + rest, field) == if n * 1024
            <= u64::MAX {
            Some((n * 1024) as nat)
        } else {
            None
        },
{
    let word = decimal(n as nat);
    let line = field + seq!['\t', ' '] + word + seq![' ', 'k', 'B'];
    let s = field + seq!['\t', ' '] + word + " kB\n"@ + rest;
    reveal_strlit(" kB\n");
    text::lemma_decimal(n as nat);
    text::lemma_number_reads_back(n as nat, u64::MAX as nat);
    let end = line.len() as int;
    assert(" kB\n"@ =~= seq![' ', 'k', 'B', '\n']);
    assert(s[end] == '\n');
    assert forall|i: int| 0 <= i < word.len() implies !text::blank(#[trigger] word[i]) && word[i]
        != '\n' by {
        assert(text::is_digit(word[i]));
    }
    assert forall|i: int| 0 <= i < end implies #[trigger] s[i] != '\n' by {
        if i < field.len() {
            assert(s[i] == field[i]);
        } else if field.len() + 2 <= i < field.len() + 2 + word.len() {
            assert(s[i] == word[i - field.len() - 2]);
        }
    }
    lemma_line_end_at(s, end);
    assert(s.take(end) =~= line);
    assert(line.last() == 'B');
    assert(line_text(s) == line);
    assert(field.is_prefix_of(line)) by {
        assert(line.subrange(0, field.len() as int) =~= field);
    }
    let value = line.skip(field.len() as int);
    assert(value =~= seq!['\t', ' '] + word + seq![' ', 'k', 'B']);
    text::lemma_word_found(seq!['\t', ' '], word, seq![' ', 'k', 'B']);
}

/// Formats a byte count for people, such as `488.3 MiB`.
pub fn human_bytes(bytes: u64) -> (r: String)
    ensures
        r@ == human(bytes),
{
    let mut out = String::new();
    let step: u64 = excess_step_of(bytes);
    let rounded: u128 = nearest_of(bytes as u128, step as u128);
    proof {
        assert(rounded <= 0xFFFF_FFFF_FFFF_FFFF) by {
            assert(bytes as int / step as int <= bytes) by (nonlinear_arith)
                requires
                    step >= 1,
            ;
        }
        assert(rounded * step <= 0x1_0000_0000_0000_0000) by {
            lemma_nearest_close(bytes as int, step as int);
        }
    }
    let value: u128 = rounded * (step as u128);
    if value < 1024 {
        push_decimal(&mut out, bytes);
        out.append(" B");
        proof {
            assert(out@ =~= human(bytes));
        }
        return out;
    }
    let unit: u128 = if value < 0x10_0000 {
        1024
    } else if value < 0x4000_0000 {
        0x10_0000
    } else if value < 0x100_0000_0000 {
        0x4000_0000
    } else {
        0x100_0000_0000
    };
    let tenths: u128 = nearest_of(value * 10, unit);
    proof {
        assert((value * 10) as int / unit as int <= 0x1_0000_0000_0000) by (nonlinear_arith)
            requires
                value <= 0x1_0000_0000_0000_0000,
                unit >= 1024,
                value < 0x100_0000_0000 || unit == 0x100_0000_0000,
        ;
    }
    push_decimal(&mut out, (tenths / 10) as u64);
    out.append(".");
    push_decimal(&mut out, (tenths % 10) as u64);
    if unit == 1024 {
        out.append(" KiB");
    } else if unit == 0x10_0000 {
        out.append(" MiB");
    } else if unit == 0x4000_0000 {
        out.append(" GiB");
    } else {
        out.append(" TiB");
    }
    proof {
        assert(out@ =~= human(bytes));
    }
    out
}

/// Rounding to a multiple of `d` moves a number by no more than half of `d`.
proof fn lemma_nearest_close(n: int, d: int)
    requires
        d >= 1,
        0 <= n,
    ensures
        2 * (nearest(n, d) * d) <= 2 * n + d,
        d == 1 ==> nearest(n, d) == n,
        n <= 0xFFFF_FFFF_FFFF_FFFF && d == excess_step(n) ==> nearest(n, d) * d
            <= 0x1_0000_0000_0000_0000,
{
    let q = n / d;
    let r = n % d;
    vstd::arithmetic::div_mod::lemma_fundamental_div_mod(n, d);
    assert(d * q == q * d) by (nonlinear_arith);
    assert((q + 1) * d == q * d + d) by (nonlinear_arith);
    if n <= 0xFFFF_FFFF_FFFF_FFFF && d == excess_step(n) {
        let full = 0x1_0000_0000_0000_0000int;
        assert(full % d == 0 && full / d * d == full) by {
            if d == 1 {
                assert(full % 1int == 0 && full / 1int * 1int == full);
            }
            if d == 2 {
                assert(full % 2int == 0 && full / 2int * 2int == full);
            }
            if d == 4 {
                assert(full % 4int == 0 && full / 4int * 4int == full);
            }
            if d == 8 {
                assert(full % 8int == 0 && full / 8int * 8int == full);
            }
            if d == 16 {
                assert(full % 16int == 0 && full / 16int * 16int == full);
            }
            if d == 32 {
                assert(full % 32int == 0 && full / 32int * 32int == full);
            }
            if d == 64 {
                assert(full % 64int == 0 && full / 64int * 64int == full);
            }
            if d == 128 {
                assert(full % 128int == 0 && full / 128int * 128int == full);
            }
            if d == 256 {
                assert(full % 256int == 0 && full / 256int * 256int == full);
            }
            if d == 512 {
                assert(full % 512int == 0 && full / 512int * 512int == full);
            }
            if d == 1024 {
                assert(full % 1024int == 0 && full / 1024int * 1024int == full);
            }
            if d == 2048 {
                assert(full % 2048int == 0 && full / 2048int * 2048int == full);
            }
        }
        assert(q * d + d <= 0x1_0000_0000_0000_0000) by {
            if q * d + d > 0x1_0000_0000_0000_0000 {
                let whole = full / d;
                assert(q >= whole) by (nonlinear_arith)
                    requires
                        (q + 1) * d > whole * d,
                        d >= 1,
                ;
                assert(q * d >= whole * d) by (nonlinear_arith)
                    requires
                        q >= whole,
                        d >= 1,
                ;
            }
        }
    }
}

} // verus!
