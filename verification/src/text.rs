//! Text building blocks for the report: decimal numbers, padding to a column
//! width, and fixed-point fractions, all stated over sequences of characters.

use vstd::prelude::*;

verus! {

/// std's `String::push`, which appends the given character to the end of
/// the string.
pub assume_specification[ String::push ](s: &mut String, c: char)
    ensures
        final(s)@ == old(s)@.push(c),
;

/// The character that stands for the decimal digit `d`.
pub open spec fn digit(d: nat) -> char {
    if d == 0 {
        '0'
    } else if d == 1 {
        '1'
    } else if d == 2 {
        '2'
    } else if d == 3 {
        '3'
    } else if d == 4 {
        '4'
    } else if d == 5 {
        '5'
    } else if d == 6 {
        '6'
    } else if d == 7 {
        '7'
    } else if d == 8 {
        '8'
    } else {
        '9'
    }
}

/// The decimal numeral of `n`, most significant digit first, without
/// leading zeros.
pub open spec fn decimal(n: nat) -> Seq<char>
    decreases n,
{
    if n < 10 {
        seq![digit(n)]
    } else {
        decimal(n / 10).push(digit(n % 10))
    }
}

/// The decimal numeral of a signed number: a minus sign before the numeral
/// of the magnitude when `n` is negative.
pub open spec fn signed_decimal(n: int) -> Seq<char> {
    if n < 0 {
        seq!['-'] + decimal((-n) as nat)
    } else {
        decimal(n as nat)
    }
}

/// `count` copies of the character `c`.
pub open spec fn repeat(c: char, count: nat) -> Seq<char> {
    Seq::new(count, |i: int| c)
}

/// `s` right-aligned in a column of `width` characters, filled with `fill`
/// on the left. A text wider than the column is kept whole.
pub open spec fn pad_left(s: Seq<char>, width: nat, fill: char) -> Seq<char> {
    if s.len() >= width {
        s
    } else {
        repeat(fill, (width - s.len()) as nat) + s
    }
}

/// `s` left-aligned in a column of `width` characters, filled with spaces on
/// the right. A text wider than the column is kept whole.
pub open spec fn pad_right(s: Seq<char>, width: nat) -> Seq<char> {
    if s.len() >= width {
        s
    } else {
        s + repeat(' ', (width - s.len()) as nat)
    }
}

/// A signed number in a zero-filled column: the sign, if any, comes first
/// and counts towards the width.
pub open spec fn zero_padded(n: int, width: nat) -> Seq<char> {
    if n < 0 {
        seq!['-'] + pad_left(decimal((-n) as nat), if width >= 1 {
            (width - 1) as nat
        } else {
            0
        }, '0')
    } else {
        pad_left(decimal(n as nat), width, '0')
    }
}

/// A non-negative fixed-point number with `places` digits after the point,
/// given as the integer `scaled` = value × 10^places.
pub open spec fn fixed_point(scaled: nat, places: nat) -> Seq<char> {
    decimal(scaled / pow10(places)) + seq!['.'] + pad_left(
        decimal(scaled % pow10(places)),
        places,
        '0',
    )
}

/// Ten to the power `k`.
pub open spec fn pow10(k: nat) -> nat
    decreases k,
{
    if k == 0 {
        1
    } else {
        10 * pow10((k - 1) as nat)
    }
}

/// The first `limit` characters of `s`, or all of `s` when it is shorter.
pub open spec fn clipped(s: Seq<char>, limit: nat) -> Seq<char> {
    if s.len() <= limit {
        s
    } else {
        s.subrange(0, limit as int)
    }
}

/// Every numeral has at least one digit.
pub proof fn lemma_decimal_len(n: nat)
    ensures
        decimal(n).len() >= 1,
    decreases n,
{
    if n >= 10 {
        lemma_decimal_len(n / 10);
    }
}

/// Every character of a numeral is a decimal digit.
pub proof fn lemma_decimal_digits(n: nat)
    ensures
        forall|i: int| 0 <= i < decimal(n).len() ==> '0' <= #[trigger] decimal(n)[i] <= '9',
    decreases n,
{
    let d = digit(n % 10);
    assert('0' <= d <= '9');
    if n >= 10 {
        lemma_decimal_digits(n / 10);
        let head = decimal(n / 10);
        assert forall|i: int| 0 <= i < decimal(n).len() implies '0' <= #[trigger] decimal(n)[i]
            <= '9' by {
            if i < head.len() {
                assert(decimal(n)[i] == head[i]);
            }
        }
    }
}

fn push_digit(out: &mut String, d: u8)
    requires
        d < 10,
    ensures
        final(out)@ == old(out)@.push(digit(d as nat)),
{
    proof {
        reveal_strlit("0");
        reveal_strlit("1");
        reveal_strlit("2");
        reveal_strlit("3");
        reveal_strlit("4");
        reveal_strlit("5");
        reveal_strlit("6");
        reveal_strlit("7");
        reveal_strlit("8");
        reveal_strlit("9");
    }
    let lit = if d == 0 {
        "0"
    } else if d == 1 {
        "1"
    } else if d == 2 {
        "2"
    } else if d == 3 {
        "3"
    } else if d == 4 {
        "4"
    } else if d == 5 {
        "5"
    } else if d == 6 {
        "6"
    } else if d == 7 {
        "7"
    } else if d == 8 {
        "8"
    } else {
        "9"
    };
    assert(lit@ =~= seq![digit(d as nat)]);
    out.append(lit);
    assert(out@ =~= old(out)@.push(digit(d as nat)));
}

/// Appends the decimal numeral of `n`.
pub fn push_decimal(out: &mut String, n: u128)
    ensures
        final(out)@ == old(out)@ + decimal(n as nat),
    decreases n,
{
    if n < 10 {
        push_digit(out, n as u8);
        assert(out@ =~= old(out)@ + decimal(n as nat));
    } else {
        push_decimal(out, n / 10);
        push_digit(out, (n % 10) as u8);
        assert(out@ =~= old(out)@ + decimal(n as nat));
    }
}

/// The number of characters in the decimal numeral of `n`.
pub fn decimal_width(n: u128) -> (w: usize)
    ensures
        w == decimal(n as nat).len(),
        1 <= w <= 39,
{
    let mut w: usize = 1;
    let mut rest: u128 = n;
    let mut limit: u128 = 10;
    proof {
        lemma_decimal_len(n as nat);
        assert(pow10(0) == 1);
        assert(rest as nat * pow10(0) == n) by (nonlinear_arith)
            requires
                pow10(0) == 1,
                rest == n,
        ;
    }
    while rest >= 10
        invariant
            1 <= w <= 39,
            decimal(n as nat).len() == decimal(rest as nat).len() + w - 1,
            rest as nat * pow10((w - 1) as nat) <= n,
        decreases rest,
    {
        proof {
            lemma_pow10_step(rest as nat, (w - 1) as nat, n as nat);
        }
        rest = rest / 10;
        w = w + 1;
    }
    w
}

proof fn lemma_pow10_step(rest: nat, k: nat, n: nat)
    requires
        rest >= 10,
        rest * pow10(k) <= n,
        n <= u128::MAX,
    ensures
        (rest / 10) * pow10(k + 1) <= n,
        k + 1 < 39,
{
    let q = rest / 10;
    assert(pow10(k + 1) == 10 * pow10(k));
    assert(q * 10 <= rest);
    assert((q * 10) * pow10(k) <= rest * pow10(k)) by (nonlinear_arith)
        requires
            q * 10 <= rest,
    ;
    assert(q * pow10(k + 1) == (q * 10) * pow10(k)) by (nonlinear_arith)
        requires
            pow10(k + 1) == 10 * pow10(k),
    ;
    if k + 1 >= 39 {
        lemma_pow10_grows(39, k + 1);
        lemma_pow10_39();
        assert(1 * pow10(k + 1) <= q * pow10(k + 1)) by (nonlinear_arith)
            requires
                q >= 1,
        ;
    }
}

proof fn lemma_pow10_grows(a: nat, b: nat)
    requires
        a <= b,
    ensures
        pow10(a) <= pow10(b),
        pow10(a) >= 1,
    decreases b,
{
    if a == 0 {
        if b > 0 {
            lemma_pow10_grows(0, (b - 1) as nat);
        }
    } else if a < b {
        lemma_pow10_grows(a, (b - 1) as nat);
    } else {
        lemma_pow10_grows((a - 1) as nat, (a - 1) as nat);
    }
}

proof fn lemma_pow10_39()
    ensures
        pow10(39) > u128::MAX,
{
    reveal_with_fuel(pow10, 40);
}

/// Appends `count` copies of a one-character literal.
fn push_repeat(out: &mut String, lit: &str, count: usize)
    requires
        lit@.len() == 1,
    ensures
        final(out)@ == old(out)@ + repeat(lit@[0], count as nat),
{
    let mut i: usize = 0;
    assert(out@ =~= old(out)@ + repeat(lit@[0], 0));
    while i < count
        invariant
            i <= count,
            lit@.len() == 1,
            out@ == old(out)@ + repeat(lit@[0], i as nat),
        decreases count - i,
    {
        out.append(lit);
        i = i + 1;
        assert(out@ =~= old(out)@ + repeat(lit@[0], i as nat));
    }
}

/// Appends `count` spaces.
pub fn push_spaces(out: &mut String, count: usize)
    ensures
        final(out)@ == old(out)@ + repeat(' ', count as nat),
{
    proof {
        reveal_strlit(" ");
    }
    push_repeat(out, " ", count);
}

/// Appends `n` right-aligned in a column of `width` characters, filled with
/// spaces when `zero_fill` is false and with zeros when it is true.
pub fn push_number(out: &mut String, n: u128, width: usize, zero_fill: bool)
    ensures
        final(out)@ == old(out)@ + pad_left(
            decimal(n as nat),
            width as nat,
            if zero_fill {
                '0'
            } else {
                ' '
            },
        ),
{
    let w = decimal_width(n);
    proof {
        reveal_strlit(" ");
        reveal_strlit("0");
    }
    if w < width {
        if zero_fill {
            push_repeat(out, "0", width - w);
        } else {
            push_repeat(out, " ", width - w);
        }
    }
    push_decimal(out, n);
    assert(out@ =~= old(out)@ + pad_left(
        decimal(n as nat),
        width as nat,
        if zero_fill {
            '0'
        } else {
            ' '
        },
    ));
}

/// Appends `s` right-aligned in a column of `width` characters.
pub fn push_right_aligned(out: &mut String, s: &str, width: usize)
    ensures
        final(out)@ == old(out)@ + pad_left(s@, width as nat, ' '),
{
    let len = s.unicode_len();
    if len < width {
        push_spaces(out, width - len);
    }
    out.append(s);
    assert(out@ =~= old(out)@ + pad_left(s@, width as nat, ' '));
}

/// Appends `s` left-aligned in a column of `width` characters.
pub fn push_left_aligned(out: &mut String, s: &str, width: usize)
    ensures
        final(out)@ == old(out)@ + pad_right(s@, width as nat),
{
    let len = s.unicode_len();
    out.append(s);
    if len < width {
        push_spaces(out, width - len);
    }
    assert(out@ =~= old(out)@ + pad_right(s@, width as nat));
}

/// Appends at most the first `limit` characters of `s`.
pub fn push_clipped(out: &mut String, s: &str, limit: usize)
    ensures
        final(out)@ == old(out)@ + clipped(s@, limit as nat),
{
    let len = s.unicode_len();
    if len <= limit {
        out.append(s);
    } else {
        out.append(s.substring_char(0, limit));
    }
}

/// Appends a signed number in a zero-filled column of `width` characters.
pub fn push_zero_padded(out: &mut String, n: i64, width: usize)
    ensures
        final(out)@ == old(out)@ + zero_padded(n as int, width as nat),
{
    if n < 0 {
        proof {
            reveal_strlit("-");
        }
        out.append("-");
        let magnitude: u128 = (-(n as i128)) as u128;
        let rest: usize = if width >= 1 {
            width - 1
        } else {
            0
        };
        push_number(out, magnitude, rest, true);
        assert(out@ =~= old(out)@ + zero_padded(n as int, width as nat));
    } else {
        push_number(out, n as u128, width, true);
    }
}

/// Appends the decimal numeral of a signed number.
pub fn push_signed(out: &mut String, n: i64)
    ensures
        final(out)@ == old(out)@ + signed_decimal(n as int),
{
    if n < 0 {
        proof {
            reveal_strlit("-");
        }
        out.append("-");
        let magnitude: u128 = (-(n as i128)) as u128;
        push_decimal(out, magnitude);
        assert(out@ =~= old(out)@ + signed_decimal(n as int));
    } else {
        push_decimal(out, n as u128);
    }
}

/// A time of `nanos` nanoseconds in seconds with three places, rounded to
/// the nearest millisecond.
pub open spec fn seconds_text(nanos: nat) -> Seq<char> {
    fixed_point((nanos + 500_000) / 1_000_000, 3)
}

/// The share of `wall` that `cpu` makes up, in percent with one place,
/// rounded to the nearest tenth. Against no wall time at all, no CPU time
/// is `NaN` and any other is `inf`.
pub open spec fn percent_text(cpu: nat, wall: nat) -> Seq<char> {
    if wall == 0 {
        if cpu == 0 {
            seq!['N', 'a', 'N']
        } else {
            seq!['i', 'n', 'f']
        }
    } else {
        fixed_point((2000 * cpu + wall) / (2 * wall), 1)
    }
}

/// Appends a fixed-point number with `places` digits after the point,
/// right-aligned in a column of `width` characters.
fn push_fixed(out: &mut String, scaled: u128, places: usize, unit: u128, width: usize)
    requires
        (places == 1 && unit == 10) || (places == 3 && unit == 1000),
    ensures
        final(out)@ == old(out)@ + pad_left(fixed_point(scaled as nat, places as nat), width as nat, ' '),
{
    proof {
        reveal_with_fuel(pow10, 4);
        assert(unit == pow10(places as nat));
    }
    let mut text = String::new();
    push_decimal(&mut text, scaled / unit);
    assert(text@ =~= decimal((scaled / unit) as nat));
    proof {
        reveal_strlit(".");
        assert("."@ =~= seq!['.']);
    }
    text.append(".");
    push_number(&mut text, scaled % unit, places, true);
    push_right_aligned(out, text.as_str(), width);
}

/// Appends `seconds_text(nanos)`, right-aligned in a column of `width`
/// characters.
pub fn push_seconds(out: &mut String, nanos: u128, width: usize)
    requires
        nanos <= u128::MAX - 500_000,
    ensures
        final(out)@ == old(out)@ + pad_left(seconds_text(nanos as nat), width as nat, ' '),
{
    push_fixed(out, (nanos + 500_000) / 1_000_000, 3, 1000, width);
}

/// Appends `percent_text(cpu, wall)`, right-aligned in a column of `width`
/// characters.
pub fn push_percent(out: &mut String, cpu: u128, wall: u64, width: usize)
    requires
        cpu <= 2 * u64::MAX,
    ensures
        final(out)@ == old(out)@ + pad_left(percent_text(cpu as nat, wall as nat), width as nat, ' '),
{
    if wall == 0 {
        proof {
            reveal_strlit("NaN");
            reveal_strlit("inf");
            assert("NaN"@ =~= seq!['N', 'a', 'N']);
            assert("inf"@ =~= seq!['i', 'n', 'f']);
        }
        if cpu == 0 {
            push_right_aligned(out, "NaN", width);
        } else {
            push_right_aligned(out, "inf", width);
        }
    } else {
        push_fixed(out, (2000 * cpu + wall as u128) / (2 * wall as u128), 1, 10, width);
    }
}

} // verus!
