use vstd::prelude::*;

verus! {

/// A span of time, counted in nanoseconds.
#[derive(Clone, Copy, Debug, PartialEq, Eq, Structural)]
pub struct Duration {
    pub nanos: u128,
}

/// A point on the process's monotonic clock, in nanoseconds since an
/// arbitrary origin that is fixed for the life of the process.
#[derive(Clone, Copy, Debug, PartialEq, Eq, Structural)]
pub struct Instant {
    pub nanos: u128,
}

pub const NANOS_PER_SEC: u128 = 1_000_000_000;

impl Duration {
    pub fn from_secs(secs: u64) -> (r: Duration)
        ensures
            r.nanos == secs * NANOS_PER_SEC,
    {
        assert(secs * NANOS_PER_SEC <= u64::MAX * NANOS_PER_SEC) by (nonlinear_arith)
            requires secs <= u64::MAX;
        Duration { nanos: secs as u128 * NANOS_PER_SEC }
    }

    pub fn from_nanos(nanos: u128) -> (r: Duration)
        ensures
            r.nanos == nanos,
    {
        Duration { nanos }
    }
}

impl Instant {
    pub fn from_nanos(nanos: u128) -> (r: Instant)
        ensures
            r.nanos == nanos,
    {
        Instant { nanos }
    }

    /// Time elapsed from `earlier` to `self`; zero when `earlier` is later.
    pub open spec fn spec_since(self, earlier: Instant) -> nat {
        if self.nanos >= earlier.nanos {
            (self.nanos - earlier.nanos) as nat
        } else {
            0
        }
    }

    pub fn since(&self, earlier: &Instant) -> (r: Duration)
        ensures
            r.nanos == self.spec_since(*earlier),
    {
        if self.nanos >= earlier.nanos {
            Duration { nanos: self.nanos - earlier.nanos }
        } else {
            Duration { nanos: 0 }
        }
    }
}

/// Why a decimal number could not be read.
#[derive(Clone, Copy, Debug, PartialEq, Eq, Structural)]
pub enum IntErrorKind {
    Empty,
    InvalidDigit,
    PosOverflow,
}

pub open spec fn is_digit(c: char) -> bool {
    '0' <= c && c <= '9'
}

pub open spec fn digit_value(c: char) -> nat {
    (c as u32 - '0' as u32) as nat
}

/// Decimal value of a string of digits.
pub open spec fn decimal_value(s: Seq<char>) -> nat
    decreases s.len(),
{
    if s.len() == 0 {
        0
    } else {
        decimal_value(s.drop_last()) * 10 + digit_value(s.last())
    }
}

/// Length of the run of digits that `s` starts with.
pub open spec fn digit_run(s: Seq<char>) -> nat
    decreases s.len(),
{
    if s.len() == 0 || !is_digit(s[0]) {
        0
    } else {
        1 + digit_run(s.drop_first())
    }
}

/// Reading a string that may only hold digits: an overflow in the leading
/// run of digits is reported before a character that is no digit.
pub open spec fn read_digits(ds: Seq<char>) -> Result<u64, IntErrorKind> {
    let run = digit_run(ds);
    if decimal_value(ds.take(run as int)) > u64::MAX {
        Err(IntErrorKind::PosOverflow)
    } else if run < ds.len() {
        Err(IntErrorKind::InvalidDigit)
    } else {
        Ok(decimal_value(ds) as u64)
    }
}

/// An unsigned decimal number, with an optional leading `+`.
pub open spec fn read_u64(s: Seq<char>) -> Result<u64, IntErrorKind> {
    if s.len() == 0 {
        Err(IntErrorKind::Empty)
    } else if s.len() == 1 && (s[0] == '+' || s[0] == '-') {
        Err(IntErrorKind::InvalidDigit)
    } else if s[0] == '+' {
        read_digits(s.drop_first())
    } else {
        read_digits(s)
    }
}

proof fn lemma_digit_run(s: Seq<char>)
    ensures
        digit_run(s) <= s.len(),
        forall|j: int| 0 <= j < digit_run(s) ==> is_digit(#[trigger] s[j]),
        digit_run(s) < s.len() ==> !is_digit(s[digit_run(s) as int]),
    decreases s.len(),
{
    if s.len() > 0 && is_digit(s[0]) {
        let t = s.drop_first();
        lemma_digit_run(t);
        assert forall|j: int| 0 <= j < digit_run(s) implies is_digit(#[trigger] s[j]) by {
            if j > 0 {
                assert(s[j] == t[j - 1]);
            }
        }
        if digit_run(s) < s.len() {
            assert(s[digit_run(s) as int] == t[digit_run(t) as int]);
        }
    }
}

/// A longer prefix of digits never has a smaller value.
proof fn lemma_value_grows(s: Seq<char>, i: int, j: int)
    requires
        0 <= i <= j <= s.len(),
    ensures
        decimal_value(s.take(i)) <= decimal_value(s.take(j)),
    decreases j - i,
{
    if i < j {
        lemma_value_grows(s, i, j - 1);
        assert(s.take(j).drop_last() =~= s.take(j - 1));
        let v = decimal_value(s.take(j - 1));
        assert(v <= v * 10 + digit_value(s.take(j).last())) by (nonlinear_arith);
    }
}

fn read_digits_exec(src: &str, start: usize) -> (r: Result<u64, IntErrorKind>)
    requires
        start <= src@.len(),
    ensures
        r == read_digits(src@.skip(start as int)),
{
    let ghost ds = src@.skip(start as int);
    let len = src.unicode_len();
    proof {
        lemma_digit_run(ds);
    }
    let mut value: u64 = 0;
    let mut i: usize = start;
    while i < len
        invariant
            start <= i <= len,
            len == src@.len(),
            ds == src@.skip(start as int),
            forall|j: int| 0 <= j < i - start ==> is_digit(#[trigger] ds[j]),
            value == decimal_value(ds.take(i - start)),
            digit_run(ds) <= ds.len(),
            forall|j: int| 0 <= j < digit_run(ds) ==> is_digit(#[trigger] ds[j]),
            digit_run(ds) < ds.len() ==> !is_digit(ds[digit_run(ds) as int]),
        decreases len - i,
    {
        let c = src.get_char(i);
        let ghost k = (i - start) as int;
        assert(c == ds[k]);
        assert(ds.take(k + 1).drop_last() =~= ds.take(k));
        if !('0' <= c && c <= '9') {
            proof {
                if digit_run(ds) > k {
                    assert(is_digit(ds[k]));
                }
                assert(digit_run(ds) == k);
            }
            return Err(IntErrorKind::InvalidDigit);
        }
        let d = (c as u32 - '0' as u32) as u64;
        if value > (u64::MAX - d) / 10 {
            proof {
                assert(value * 10 + d > u64::MAX) by (nonlinear_arith)
                    requires value > (u64::MAX - d) / 10, d <= 9;
                assert(decimal_value(ds.take(k + 1)) == value * 10 + d);
                if digit_run(ds) <= k {
                    assert(!is_digit(ds[digit_run(ds) as int]));
                    assert(is_digit(ds[digit_run(ds) as int]));
                }
                lemma_value_grows(ds, k + 1, digit_run(ds) as int);
            }
            return Err(IntErrorKind::PosOverflow);
        }
        proof {
            assert(value * 10 + d <= u64::MAX) by (nonlinear_arith)
                requires value <= (u64::MAX - d) / 10, d <= 9;
        }
        value = value * 10 + d;
        i = i + 1;
    }
    proof {
        assert(ds.take(ds.len() as int) =~= ds);
        if digit_run(ds) < ds.len() {
            assert(is_digit(ds[digit_run(ds) as int]));
        }
    }
    Ok(value)
}

/// Reads an unsigned decimal number as the text of a whole number of seconds.
pub fn parse_u64(src: &str) -> (r: Result<u64, IntErrorKind>)
    ensures
        r == read_u64(src@),
{
    let len = src.unicode_len();
    if len == 0 {
        return Err(IntErrorKind::Empty);
    }
    let first = src.get_char(0);
    if len == 1 && (first == '+' || first == '-') {
        return Err(IntErrorKind::InvalidDigit);
    }
    if first == '+' {
        assert(src@.skip(1) =~= src@.drop_first());
        read_digits_exec(src, 1)
    } else {
        assert(src@.skip(0) =~= src@);
        read_digits_exec(src, 0)
    }
}

/// Parses a `Duration` from a string containing a whole number of seconds.
pub fn parse_seconds(src: &str) -> (r: Result<Duration, IntErrorKind>)
    ensures
        match read_u64(src@) {
            Ok(secs) => r == Ok::<Duration, IntErrorKind>(Duration { nanos: (secs * NANOS_PER_SEC) as u128 }),
            Err(e) => r == Err::<Duration, IntErrorKind>(e),
        },
{
    match parse_u64(src) {
        Ok(secs) => Ok(Duration::from_secs(secs)),
        Err(e) => Err(e),
    }
}

} // verus!
