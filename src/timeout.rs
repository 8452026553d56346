use vstd::prelude::*;

verus! {

/// What humantime makes of a duration text, as (seconds, nanoseconds).
pub uninterp spec fn human_duration(s: Seq<char>) -> Option<(u64, u32)>;

/// The number of ASCII digits in the text.
pub open spec fn ascii_digits(s: Seq<char>) -> nat
    decreases s.len(),
{
    if s.len() == 0 {
        0
    } else {
        ascii_digits(s.drop_last()) + if 48 <= (s.last() as int) <= 57 {
            1nat
        } else {
            0nat
        }
    }
}

/// The most digits a timeout text may hold. With at most this many digits
/// every number humantime reads stays below 10^11, so even in years the
/// total stays far below `u64::MAX` seconds.
pub const MAX_TIMEOUT_DIGITS: usize = 11;

/// Relies on humantime's `Duration` parser (its `FromStr`, which calls
/// `humantime::parse_duration`): the result depends on the text alone. That
/// parser ends in `Duration::new`, which panics when carrying nanoseconds
/// overflows the seconds; the bound on digits keeps the seconds far from
/// that limit.
#[verifier::external_body]
fn parse_human_duration(s: &str) -> (r: Option<(u64, u32)>)
    requires
        ascii_digits(s@) <= MAX_TIMEOUT_DIGITS,
    ensures
        r == human_duration(s@),
{
    match s.parse::<humantime::Duration>() {
        Ok(d) => {
            let d: std::time::Duration = d.into();
            Some((d.as_secs(), d.subsec_nanos()))
        },
        Err(_) => None,
    }
}

/// The task's own timeout if it has one, else the default; `"0"` and the
/// empty text mean no timeout, and text that does not parse, or that holds
/// more digits than `MAX_TIMEOUT_DIGITS`, gives none.
pub open spec fn timeout_of(task: Option<Seq<char>>, default: Option<Seq<char>>) -> Option<(u64, u32)> {
    let chosen = if task is Some {
        task
    } else {
        default
    };
    match chosen {
        None => None,
        Some(s) => if s.len() == 0 || s == seq!['0'] || ascii_digits(s) > MAX_TIMEOUT_DIGITS {
            None
        } else {
            human_duration(s)
        },
    }
}

/// The effective timeout of a task, as (seconds, nanoseconds).
pub fn parse_timeout(timeout_str: Option<&str>, default_timeout: Option<&str>) -> (r: Option<(u64, u32)>)
    ensures
        r == timeout_of(
            match timeout_str {
                Some(s) => Some(s@),
                None => None,
            },
            match default_timeout {
                Some(s) => Some(s@),
                None => None,
            },
        ),
{
    let chosen = match timeout_str {
        Some(s) => s,
        None => match default_timeout {
            Some(s) => s,
            None => {
                return None;
            },
        },
    };
    let n = chosen.unicode_len();
    if n == 0 {
        return None;
    }
    if n == 1 && chosen.get_char(0) == '0' {
        assert(chosen@ =~= seq!['0']);
        return None;
    }
    assert(chosen@ != seq!['0']) by {
        if chosen@ == seq!['0'] {
            assert(chosen@.len() == 1 && chosen@[0] == '0');
        }
    }
    let mut digits: usize = 0;
    let mut i: usize = 0;
    while i < n
        invariant
            n == chosen@.len(),
            i <= n,
            digits == ascii_digits(chosen@.take(i as int)),
            digits <= i,
        decreases n - i,
    {
        let c = chosen.get_char(i);
        assert(chosen@.take(i + 1).drop_last() =~= chosen@.take(i as int));
        if '0' <= c && c <= '9' {
            digits = digits + 1;
        }
        i = i + 1;
    }
    assert(chosen@.take(n as int) =~= chosen@);
    if digits > MAX_TIMEOUT_DIGITS {
        return None;
    }
    parse_human_duration(chosen)
}

} // verus!
