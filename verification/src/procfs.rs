//! The kernel's per-thread statistics files, read as bytes: fields
//! separated by white space, and the CPU time that they hold.

use vstd::prelude::*;

verus! {

/// White space between fields: blank, tab, line feed, vertical tab, form
/// feed, carriage return.
pub open spec fn is_space(b: u8) -> bool {
    b == 32 || (9 <= b && b <= 13)
}

/// The first place at or after `from` that holds no white space; the end of
/// `s` when only white space is left.
pub open spec fn skip_spaces(s: Seq<u8>, from: int) -> int
    decreases s.len() - from,
{
    if 0 <= from < s.len() && is_space(s[from]) {
        skip_spaces(s, from + 1)
    } else {
        from
    }
}

/// The first place at or after `from` that holds white space; the end of
/// `s` when none is left.
pub open spec fn token_end(s: Seq<u8>, from: int) -> int
    decreases s.len() - from,
{
    if 0 <= from < s.len() && !is_space(s[from]) {
        token_end(s, from + 1)
    } else {
        from
    }
}

/// Where field `k` begins, counting from 0 the fields that begin at or
/// after `from`; the end of `s` when there are not that many.
pub open spec fn field_start(s: Seq<u8>, from: int, k: nat) -> int
    decreases k,
{
    if k == 0 {
        skip_spaces(s, from)
    } else {
        field_start(s, token_end(s, skip_spaces(s, from)), (k - 1) as nat)
    }
}

/// Field `k` of those that begin at or after `from`; empty when there are
/// not that many.
pub open spec fn field(s: Seq<u8>, from: int, k: nat) -> Seq<u8> {
    let start = field_start(s, from, k);
    s.subrange(start, token_end(s, start))
}

/// Whether every byte is a decimal digit.
pub open spec fn all_digits(s: Seq<u8>) -> bool {
    forall|i: int| 0 <= i < s.len() ==> 48 <= #[trigger] s[i] <= 57
}

/// The number that a run of decimal digits stands for.
pub open spec fn digits_value(s: Seq<u8>) -> nat
    decreases s.len(),
{
    if s.len() == 0 {
        0
    } else {
        (10 * digits_value(s.drop_last()) + (s.last() - 48)) as nat
    }
}

/// A field without its plus sign, if it has one.
pub open spec fn unsigned_part(token: Seq<u8>) -> Seq<u8> {
    if token.len() > 0 && token[0] == 43 {
        token.drop_first()
    } else {
        token
    }
}

/// The count that a field holds: the value of its digits, with or without
/// a plus sign before them. A field that is empty, holds anything but
/// digits, or a number above the largest signed 64-bit one, counts as zero.
pub open spec fn token_number(token: Seq<u8>) -> nat {
    let digits = unsigned_part(token);
    if digits.len() > 0 && all_digits(digits) && digits_value(digits) <= i64::MAX {
        digits_value(digits)
    } else {
        0
    }
}

/// The place of the first byte `b` in `s`, or the length of `s`.
pub open spec fn first_byte(s: Seq<u8>, b: u8, from: int) -> int
    decreases s.len() - from,
{
    if 0 <= from < s.len() && s[from] != b {
        first_byte(s, b, from + 1)
    } else {
        from
    }
}

/// The CPU time in nanoseconds that the scheduler statistics of a thread
/// give: their first field.
pub open spec fn schedstat_nanos(s: Seq<u8>) -> nat {
    let n = token_number(field(s, 0, 0));
    if n <= u64::MAX {
        n
    } else {
        0
    }
}

/// The CPU time in nanoseconds that the status line of a thread gives at
/// `ticks_per_sec` clock ticks a second: the user and kernel ticks, which
/// are fields 11 and 12 after the first closing bracket, as whole
/// milliseconds. Zero where the line has no closing bracket or not that
/// many fields, where no tick rate is known, and where nanoseconds cannot
/// hold the time.
pub open spec fn stat_nanos(s: Seq<u8>, ticks_per_sec: u64) -> nat {
    let close = first_byte(s, 41, 0);
    let from = close + 1;
    if close >= s.len() || ticks_per_sec == 0 || field(s, from, 12).len() == 0 {
        0
    } else {
        let ticks = token_number(field(s, from, 11)) + token_number(field(s, from, 12));
        let millis = (1000 * ticks) / (ticks_per_sec as nat);
        if millis * 1_000_000 <= u64::MAX {
            (millis * 1_000_000) as nat
        } else {
            0
        }
    }
}

fn skip_spaces_from(text: &[u8], from: usize) -> (at: usize)
    requires
        from <= text@.len(),
    ensures
        at == skip_spaces(text@, from as int),
        from <= at <= text@.len(),
{
    let mut at = from;
    while at < text.len() && (text[at] == 32 || (9 <= text[at] && text[at] <= 13))
        invariant
            from <= at <= text@.len(),
            skip_spaces(text@, at as int) == skip_spaces(text@, from as int),
        decreases text@.len() - at,
    {
        at = at + 1;
    }
    at
}

fn token_end_from(text: &[u8], from: usize) -> (at: usize)
    requires
        from <= text@.len(),
    ensures
        at == token_end(text@, from as int),
        from <= at <= text@.len(),
{
    let mut at = from;
    while at < text.len() && !(text[at] == 32 || (9 <= text[at] && text[at] <= 13))
        invariant
            from <= at <= text@.len(),
            token_end(text@, at as int) == token_end(text@, from as int),
        decreases text@.len() - at,
    {
        at = at + 1;
    }
    at
}

/// The bounds of field `k` of those that begin at or after `from`.
fn find_field(text: &[u8], from: usize, k: usize) -> (bounds: (usize, usize))
    requires
        from <= text@.len(),
    ensures
        bounds.0 == field_start(text@, from as int, k as nat),
        bounds.1 == token_end(text@, bounds.0 as int),
        bounds.0 <= bounds.1 <= text@.len(),
{
    let mut at = from;
    let mut left = k;
    while left > 0
        invariant
            at <= text@.len(),
            field_start(text@, at as int, left as nat) == field_start(text@, from as int, k as nat),
        decreases left,
    {
        let start = skip_spaces_from(text, at);
        at = token_end_from(text, start);
        left = left - 1;
    }
    let start = skip_spaces_from(text, at);
    let end = token_end_from(text, start);
    (start, end)
}

proof fn lemma_digits_value_grows(s: Seq<u8>, k: int)
    requires
        all_digits(s),
        0 <= k <= s.len(),
    ensures
        digits_value(s.subrange(0, k)) <= digits_value(s),
    decreases s.len() - k,
{
    if k < s.len() {
        let longer = s.subrange(0, k + 1);
        assert(longer.drop_last() =~= s.subrange(0, k));
        assert(longer.last() == s[k]);
        lemma_digits_value_grows(s, k + 1);
    } else {
        assert(s.subrange(0, k) =~= s);
    }
}

/// The count that the bytes from `start` to `end` hold.
fn parse_count(text: &[u8], start: usize, end: usize) -> (n: u64)
    requires
        start <= end <= text@.len(),
    ensures
        n == token_number(text@.subrange(start as int, end as int)),
{
    let ghost token = text@.subrange(start as int, end as int);
    let mut at = start;
    if at < end && text[at] == 43 {
        at = at + 1;
    }
    let ghost digits = unsigned_part(token);
    assert(digits =~= text@.subrange(at as int, end as int));
    if at == end {
        return 0;
    }
    let first = at;
    let mut value: u64 = 0;
    while at < end
        invariant
            first <= at <= end <= text@.len(),
            start <= end,
            first < end,
            token == text@.subrange(start as int, end as int),
            digits == unsigned_part(token),
            digits == text@.subrange(first as int, end as int),
            all_digits(digits.subrange(0, at - first)),
            value == digits_value(digits.subrange(0, at - first)),
            value <= i64::MAX,
        decreases end - at,
    {
        let b = text[at];
        if b < 48 || b > 57 {
            assert(digits[at - first] == b);
            return 0;
        }
        let d = (b - 48) as u64;
        proof {
            let longer = digits.subrange(0, at - first + 1);
            assert(longer.drop_last() =~= digits.subrange(0, at - first));
            assert(longer.last() == b);
            assert(all_digits(longer)) by {
                assert forall|i: int| 0 <= i < longer.len() implies 48 <= #[trigger] longer[i]
                    <= 57 by {
                    if i < at - first {
                        assert(digits.subrange(0, at - first)[i] == longer[i]);
                    }
                }
            }
            if 10 * value + d > i64::MAX {
                if all_digits(digits) {
                    lemma_digits_value_grows(digits, at - first + 1);
                }
            }
        }
        if value > (i64::MAX as u64 - d) / 10 {
            return 0;
        }
        value = 10 * value + d;
        at = at + 1;
    }
    assert(digits.subrange(0, at - first) =~= digits);
    value
}

/// The CPU time in nanoseconds that the scheduler statistics in `text`
/// give.
pub fn parse_schedstat(text: &[u8]) -> (nanos: u64)
    ensures
        nanos == schedstat_nanos(text@),
{
    let (start, end) = find_field(text, 0, 0);
    parse_count(text, start, end)
}

/// The CPU time in nanoseconds that the status line in `text` gives at
/// `ticks_per_sec` clock ticks a second.
pub fn parse_stat(text: &[u8], ticks_per_sec: u64) -> (nanos: u64)
    ensures
        nanos == stat_nanos(text@, ticks_per_sec),
{
    let mut close: usize = 0;
    while close < text.len() && text[close] != 41
        invariant
            close <= text@.len(),
            first_byte(text@, 41, close as int) == first_byte(text@, 41, 0),
        decreases text@.len() - close,
    {
        close = close + 1;
    }
    if close >= text.len() || ticks_per_sec == 0 {
        return 0;
    }
    let from = close + 1;
    let (stime_start, stime_end) = find_field(text, from, 12);
    if stime_start == stime_end {
        return 0;
    }
    let (utime_start, utime_end) = find_field(text, from, 11);
    let utime = parse_count(text, utime_start, utime_end);
    let stime = parse_count(text, stime_start, stime_end);
    let ticks: u128 = utime as u128 + stime as u128;
    let millis: u128 = (1000 * ticks) / (ticks_per_sec as u128);
    if millis > (u64::MAX as u128) / 1_000_000 {
        0
    } else {
        (millis * 1_000_000) as u64
    }
}

/// The place of the first NUL at or after `from`; the end of `s` when none
/// is left.
pub open spec fn next_nul(s: Seq<char>, from: int) -> int
    decreases s.len() - from,
{
    if 0 <= from < s.len() && s[from] != '\0' {
        next_nul(s, from + 1)
    } else {
        from
    }
}

/// The pieces of `s` from `from` on that stand between NULs. A NUL at the
/// end is followed by one more, empty piece.
pub open spec fn nul_pieces(s: Seq<char>, from: int) -> Seq<Seq<char>>
    decreases s.len() - from,
{
    let end = next_nul(s, from);
    if 0 <= from <= end < s.len() {
        seq![s.subrange(from, end)] + nul_pieces(s, end + 1)
    } else if 0 <= from <= s.len() {
        seq![s.subrange(from, s.len() as int)]
    } else {
        Seq::empty()
    }
}

/// The argument vector that a command line of the kernel holds: its
/// pieces between NULs.
pub open spec fn cmdline_argv(s: Seq<char>) -> Seq<Seq<char>> {
    nul_pieces(s, 0)
}

/// Splits a command line of the kernel into its arguments.
pub fn split_cmdline(text: &str) -> (argv: Vec<String>)
    ensures
        argv.deep_view() == cmdline_argv(text@),
{
    let ghost s = text@;
    let mut argv: Vec<String> = Vec::new();
    let mut piece = String::new();
    let ghost mut start: int = 0;
    assert(argv.deep_view() =~= Seq::<Seq<char>>::empty());
    assert(piece@ =~= s.subrange(0, 0));
    for c in it: text.chars()
        invariant
            it.seq() == s,
            0 <= start <= it.index() <= s.len(),
            piece@ == s.subrange(start, it.index() as int),
            next_nul(s, it.index() as int) == next_nul(s, start),
            argv.deep_view() + nul_pieces(s, start) == cmdline_argv(s),
    {
        let ghost at = it.index() as int;
        if c == '\0' {
            let ghost before = argv.deep_view();
            argv.push(piece);
            piece = String::new();
            proof {
                assert(next_nul(s, start) == at);
                assert(argv.deep_view() =~= before.push(s.subrange(start, at)));
                assert(before + nul_pieces(s, start) =~= argv.deep_view() + nul_pieces(s, at + 1));
                start = at + 1;
                assert(piece@ =~= s.subrange(start, at + 1));
            }
        } else {
            piece.push(c);
            assert(piece@ =~= s.subrange(start, at + 1));
        }
    }
    let ghost before = argv.deep_view();
    argv.push(piece);
    proof {
        assert(next_nul(s, start) == s.len());
        assert(argv.deep_view() =~= before.push(s.subrange(start, s.len() as int)));
        assert(before + nul_pieces(s, start) =~= argv.deep_view());
    }
    argv
}

} // verus!
