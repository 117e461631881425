//! Decimal rendering of counters and the quest screen's progress strings.

use vstd::prelude::*;

verus! {

/// The character for one decimal digit.
pub open spec fn spec_decimal_digit(d: nat) -> char {
    if d == 0 {
        '0'
    } else if d == 1 {
        '1'
    } else if d == 2 {
        '2'
    } else if d == 3 {
        '3'
    } else if d == 4 {
        '4'
    } else if d == 5 {
        '5'
    } else if d == 6 {
        '6'
    } else if d == 7 {
        '7'
    } else if d == 8 {
        '8'
    } else {
        '9'
    }
}

/// The decimal rendering of `n`, most significant digit first, without
/// leading zeroes (a single `'0'` for zero).
pub open spec fn spec_decimal(n: nat) -> Seq<char>
    decreases n,
{
    if n < 10 {
        seq![spec_decimal_digit(n)]
    } else {
        spec_decimal(n / 10).push(spec_decimal_digit(n % 10))
    }
}

fn decimal_digit(d: u32) -> (c: char)
    requires
        d < 10,
    ensures
        c == spec_decimal_digit(d as nat),
{
    match d {
        0 => '0',
        1 => '1',
        2 => '2',
        3 => '3',
        4 => '4',
        5 => '5',
        6 => '6',
        7 => '7',
        8 => '8',
        _ => '9',
    }
}

/// Relies on `String::push`: appends one character to the string.
#[verifier::external_body]
pub(crate) fn string_push(s: &mut String, c: char)
    ensures
        final(s)@ == old(s)@.push(c),
{
    s.push(c)
}

/// Relies on `str::push_str` (`String::push_str`): appends the characters of
/// `t` to the string.
#[verifier::external_body]
pub(crate) fn string_push_str(s: &mut String, t: &str)
    ensures
        final(s)@ == old(s)@ + t@,
{
    s.push_str(t)
}

/// Renders `n` in decimal.
#[verifier::loop_isolation(false)]
pub fn u32_to_string(n: u32) -> (s: String)
    ensures
        s@ == spec_decimal(n as nat),
{
    let mut digits: Vec<char> = Vec::new();
    let mut m: u32 = n;
    let first = decimal_digit(m % 10);
    digits.push(first);
    proof {
        assert(digits@.reverse() =~= seq![spec_decimal_digit((n % 10) as nat)]);
    }
    m = m / 10;
    while m > 0
        invariant
            spec_decimal(n as nat) == if m > 0 {
                spec_decimal(m as nat) + digits@.reverse()
            } else {
                digits@.reverse()
            },
        decreases m,
    {
        let c = decimal_digit(m % 10);
        let ghost before = digits@;
        digits.push(c);
        proof {
            assert(digits@.reverse() =~= seq![c] + before.reverse());
            if m >= 10 {
                assert(spec_decimal(m as nat) == spec_decimal((m / 10) as nat).push(
                    spec_decimal_digit((m % 10) as nat),
                ));
                assert(spec_decimal((m / 10) as nat).push(c) + before.reverse() =~= spec_decimal(
                    (m / 10) as nat,
                ) + digits@.reverse());
            } else {
                assert(spec_decimal(m as nat) =~= seq![c]);
            }
        }
        m = m / 10;
    }
    let mut s = String::new();
    let k = digits.len();
    let mut i: usize = 0;
    while i < k
        invariant
            i <= k,
            k == digits@.len(),
            s@ == digits@.reverse().take(i as int),
        decreases k - i,
    {
        let c = digits[k - 1 - i];
        proof {
            assert(digits@.reverse()[i as int] == c);
        }
        string_push(&mut s, c);
        proof {
            assert(s@ =~= digits@.reverse().take(i as int + 1));
        }
        i += 1;
    }
    proof {
        assert(digits@.reverse().take(k as int) =~= digits@.reverse());
    }
    s
}

/// The quest screen's progress caption for a counter at `progress` out of
/// `max`: the two numbers in decimal, separated by a slash.
pub open spec fn spec_progress_text(progress: u32, max: u32) -> Seq<char> {
    spec_decimal(progress as nat) + seq!['/'] + spec_decimal(max as nat)
}

/// Renders the progress caption `<progress>/<max>`.
pub fn progress_text(progress: u32, max: u32) -> (s: String)
    ensures
        s@ == spec_progress_text(progress, max),
{
    let mut s = u32_to_string(progress);
    string_push(&mut s, '/');
    let rest = u32_to_string(max);
    string_push_str(&mut s, rest.as_str());
    proof {
        assert(s@ =~= spec_progress_text(progress, max));
    }
    s
}

/// The progress bar fill for a counter at `progress` out of `max`, as the
/// linear mapping of `progress` from `[0, max]` to `[0, 100]`.
pub fn fill_percent(progress: u32, max: u32) -> (r: u32)
    requires
        1 <= max,
        progress <= max,
    ensures
        r == (progress as int) * 100 / (max as int),
        r <= 100,
{
    let p: u64 = (progress as u64) * 100 / (max as u64);
    proof {
        assert((progress as int) * 100 / (max as int) <= 100) by (nonlinear_arith)
            requires
                1 <= max as int,
                progress as int <= max as int,
        ;
    }
    p as u32
}

} // verus!
