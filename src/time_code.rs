use vstd::prelude::*;
use core::cmp::Ordering;
use vstd::std_specs::cmp::PartialOrdSpec;
use crate::outline::ParseOutlineError;
use crate::text::{
    all_digits, decimal, decimal_chars, digit_char, digit_value, digits_value, is_digit, lemma_decimal,
    lemma_digits_value_prefix, lemma_two_digits, push_char, push_chars, push_two_digits, two_digits, chars_of,
    lemma_digit_char,
};

verus! {

/// A point in elapsed time: any number of hours up to `u32::MAX`,
/// minutes and seconds each in `0..=59`.
#[derive(Clone, Copy, Debug, PartialEq, Eq, Structural)]
pub struct TimeCode {
    pub hours: u32,
    pub minutes: u32,
    pub seconds: u32,
}

/// Why `TimeCode::new` refused its components.
#[derive(Clone, Copy, Debug, PartialEq, Eq, Structural)]
pub enum TimeCodeError {
    MinutesOutOfRange,
    SecondsOutOfRange,
}

impl TimeCode {
    /// Minutes and seconds are in range.
    pub open spec fn valid(self) -> bool {
        self.minutes <= 59 && self.seconds <= 59
    }

    /// Builds a time code, refusing minutes or seconds above 59 (minutes are
    /// checked first).
    pub fn new(hours: u32, minutes: u32, seconds: u32) -> (r: Result<TimeCode, TimeCodeError>)
        ensures
            minutes > 59 ==> r == Err::<TimeCode, TimeCodeError>(TimeCodeError::MinutesOutOfRange),
            minutes <= 59 && seconds > 59 ==> r == Err::<TimeCode, TimeCodeError>(
                TimeCodeError::SecondsOutOfRange,
            ),
            minutes <= 59 && seconds <= 59 ==> r == Ok::<TimeCode, TimeCodeError>(
                (TimeCode { hours, minutes, seconds }),
            ),
    {
        if minutes > 59 {
            return Err(TimeCodeError::MinutesOutOfRange);
        }
        if seconds > 59 {
            return Err(TimeCodeError::SecondsOutOfRange);
        }
        Ok(TimeCode { hours, minutes, seconds })
    }

    /// Parses `H…:MM:SS` or `M…:SS`; see `time_code_of`.
    pub fn from_str(text: &str) -> (r: Result<TimeCode, ParseOutlineError>)
        ensures
            match time_code_of(text@) {
                Some(t) => r == Ok::<TimeCode, ParseOutlineError>(t),
                None => r is Err && r->Err_0.is_invalid_time_code(text@),
            },
    {
        let cs = chars_of(text);
        assert(cs@.subrange(0, cs@.len() as int) =~= cs@);
        match parse_range(&cs, 0, cs.len()) {
            Some(t) => Ok(t),
            None => Err(ParseOutlineError::InvalidTimeCode(text.to_owned())),
        }
    }

    /// The canonical text: `H:MM:SS` when there are hours, else `M:SS`.
    pub fn to_string(&self) -> (r: String)
        ensures
            r@ == time_code_text(*self),
    {
        let mut r = String::new();
        push_time_code(&mut r, self);
        r
    }
}

/// The lexicographic order on (hours, minutes, seconds).
pub open spec fn time_order(a: TimeCode, b: TimeCode) -> Ordering {
    if a.hours < b.hours {
        Ordering::Less
    } else if a.hours > b.hours {
        Ordering::Greater
    } else if a.minutes < b.minutes {
        Ordering::Less
    } else if a.minutes > b.minutes {
        Ordering::Greater
    } else if a.seconds < b.seconds {
        Ordering::Less
    } else if a.seconds > b.seconds {
        Ordering::Greater
    } else {
        Ordering::Equal
    }
}

/// `a` comes at or before `b`.
pub open spec fn time_le(a: TimeCode, b: TimeCode) -> bool {
    time_order(a, b) != Ordering::Greater
}

impl PartialOrd for TimeCode {
    fn partial_cmp(&self, other: &TimeCode) -> Option<Ordering> {
        if self.hours < other.hours {
            Some(Ordering::Less)
        } else if self.hours > other.hours {
            Some(Ordering::Greater)
        } else if self.minutes < other.minutes {
            Some(Ordering::Less)
        } else if self.minutes > other.minutes {
            Some(Ordering::Greater)
        } else if self.seconds < other.seconds {
            Some(Ordering::Less)
        } else if self.seconds > other.seconds {
            Some(Ordering::Greater)
        } else {
            Some(Ordering::Equal)
        }
    }
}

impl vstd::std_specs::cmp::PartialOrdSpecImpl for TimeCode {
    open spec fn obeys_partial_cmp_spec() -> bool {
        true
    }

    open spec fn partial_cmp_spec(&self, other: &TimeCode) -> Option<Ordering> {
        Some(time_order(*self, *other))
    }
}

/// `s` has the shape `H…:MM:SS`: one or more digits, then two colon-led
/// pairs of digits.
pub open spec fn hms_shape(s: Seq<char>) -> bool {
    let n = s.len() as int;
    &&& n >= 7
    &&& all_digits(s.take(n - 6))
    &&& s[n - 6] == ':'
    &&& is_digit(s[n - 5])
    &&& is_digit(s[n - 4])
    &&& s[n - 3] == ':'
    &&& is_digit(s[n - 2])
    &&& is_digit(s[n - 1])
}

/// `s` has the shape `M…:SS`: one or more digits, then a colon-led pair of
/// digits.
pub open spec fn ms_shape(s: Seq<char>) -> bool {
    let n = s.len() as int;
    &&& n >= 4
    &&& all_digits(s.take(n - 3))
    &&& s[n - 3] == ':'
    &&& is_digit(s[n - 2])
    &&& is_digit(s[n - 1])
}

/// The value of the two digits at `s[i]`, `s[i + 1]`.
pub open spec fn pair_value(s: Seq<char>, i: int) -> nat {
    digit_value(s[i]) * 10 + digit_value(s[i + 1])
}

/// What a time-code text denotes: `None` unless it has one of the two
/// shapes, with minutes and seconds at most 59 and hours that fit a `u32`.
/// Leading zeros of the first group are ignored.
pub open spec fn time_code_of(s: Seq<char>) -> Option<TimeCode> {
    let n = s.len() as int;
    if hms_shape(s) {
        let h = digits_value(s.take(n - 6));
        let m = pair_value(s, n - 5);
        let sec = pair_value(s, n - 2);
        if h <= u32::MAX && m <= 59 && sec <= 59 {
            Some(TimeCode { hours: h as u32, minutes: m as u32, seconds: sec as u32 })
        } else {
            None
        }
    } else if ms_shape(s) {
        let m = digits_value(s.take(n - 3));
        let sec = pair_value(s, n - 2);
        if m <= 59 && sec <= 59 {
            Some(TimeCode { hours: 0, minutes: m as u32, seconds: sec as u32 })
        } else {
            None
        }
    } else {
        None
    }
}

/// The canonical text of a time code: `H:MM:SS` when hours are non-zero,
/// otherwise `M:SS`; the first group carries no leading zeros.
pub open spec fn time_code_text(t: TimeCode) -> Seq<char> {
    if t.hours > 0 {
        decimal(t.hours as nat) + seq![':'] + two_digits(t.minutes as nat) + seq![':']
            + two_digits(t.seconds as nat)
    } else {
        decimal(t.minutes as nat) + seq![':'] + two_digits(t.seconds as nat)
    }
}

/// Parsing the canonical text of a valid time code gives it back.
pub proof fn lemma_round_trip(t: TimeCode)
    requires
        t.valid(),
    ensures
        time_code_of(time_code_text(t)) == Some(t),
{
    let s = time_code_text(t);
    let n = s.len() as int;
    lemma_two_digits(t.seconds as nat);
    let ps = two_digits(t.seconds as nat);
    lemma_pair_digits(ps);
    if t.hours > 0 {
        let d = decimal(t.hours as nat);
        lemma_decimal(t.hours as nat);
        lemma_two_digits(t.minutes as nat);
        let pm = two_digits(t.minutes as nat);
        lemma_pair_digits(pm);
        assert(s =~= d + seq![':', pm[0], pm[1], ':', ps[0], ps[1]]);
        assert(s.take(n - 6) =~= d);
        assert(is_digit(pm[0]) && is_digit(pm[1]) && is_digit(ps[0]) && is_digit(ps[1]));
        assert(hms_shape(s));
        assert(pair_value(s, n - 5) == t.minutes);
        assert(pair_value(s, n - 2) == t.seconds);
    } else {
        let d = decimal(t.minutes as nat);
        lemma_decimal(t.minutes as nat);
        assert(s =~= d + seq![':', ps[0], ps[1]]);
        assert(s.take(n - 3) =~= d);
        assert(is_digit(ps[0]) && is_digit(ps[1]));
        assert(ms_shape(s));
        assert(pair_value(s, n - 2) == t.seconds);
    }
}

/// The canonical text is a non-empty run of digits and colons.
pub proof fn lemma_text_chars(t: TimeCode)
    ensures
        time_code_text(t).len() > 0,
        forall|i: int|
            0 <= i < time_code_text(t).len() ==> is_digit(#[trigger] time_code_text(t)[i])
                || time_code_text(t)[i] == ':',
{
    lemma_decimal(t.hours as nat);
    lemma_decimal(t.minutes as nat);
    lemma_two_digits_chars(t.minutes as nat);
    lemma_two_digits_chars(t.seconds as nat);
}

proof fn lemma_two_digits_chars(n: nat)
    ensures
        all_digits(two_digits(n)),
{
    lemma_decimal(n);
    lemma_digit_char(0);
    if n < 10 {
        assert(two_digits(n) =~= seq![digit_char(0)] + decimal(n));
    }
}

proof fn lemma_pair_digits(p: Seq<char>)
    requires
        p.len() == 2,
    ensures
        digits_value(p) == digit_value(p[0]) * 10 + digit_value(p[1]),
{
    let q = p.drop_last();
    assert(q.drop_last() =~= Seq::<char>::empty());
    assert(q.last() == p[0]);
    assert(digits_value(q) == digits_value(q.drop_last()) * 10 + digit_value(q.last()));
    assert(digits_value(q) == digit_value(p[0]));
    assert(p.last() == p[1]);
}

/// The order on time codes is the lexicographic order on their
/// `(hours, minutes, seconds)` tuples, and it is total: equal exactly when
/// the codes are equal, reversed when the arguments are swapped, transitive,
/// and any two codes are comparable.
pub proof fn lemma_total_order(a: TimeCode, b: TimeCode, c: TimeCode)
    ensures
        a.partial_cmp_spec(&b) == (a.hours, a.minutes, a.seconds).partial_cmp_spec(
            &(b.hours, b.minutes, b.seconds),
        ),
        time_order(a, b) == Ordering::Equal <==> a == b,
        time_order(a, b) == Ordering::Less <==> time_order(b, a) == Ordering::Greater,
        time_le(a, b) && time_le(b, c) ==> time_le(a, c),
        time_order(a, b) == Ordering::Less && time_order(b, c) == Ordering::Less ==> time_order(
            a,
            c,
        ) == Ordering::Less,
        time_le(a, b) || time_le(b, a),
{
}

/// Whether `cs[lo..hi]` is all decimal digits.
fn digits_between(cs: &Vec<char>, lo: usize, hi: usize) -> (r: bool)
    requires
        lo <= hi <= cs@.len(),
    ensures
        r == all_digits(cs@.subrange(lo as int, hi as int)),
{
    let mut i = lo;
    while i < hi
        invariant
            lo <= i <= hi <= cs@.len(),
            all_digits(cs@.subrange(lo as int, i as int)),
        decreases hi - i,
    {
        if !('0' <= cs[i] && cs[i] <= '9') {
            assert(!is_digit(cs@.subrange(lo as int, hi as int)[i - lo]));
            return false;
        }
        assert(forall|j: int|
            0 <= j < i + 1 - lo ==> #[trigger] cs@.subrange(lo as int, i + 1)[j]
                == cs@[lo + j]);
        i = i + 1;
    }
    true
}

/// The number spelled by the digits `cs[lo..hi]`, or `None` when it exceeds
/// `u32::MAX`.
fn value_between(cs: &Vec<char>, lo: usize, hi: usize) -> (r: Option<u32>)
    requires
        lo <= hi <= cs@.len(),
        all_digits(cs@.subrange(lo as int, hi as int)),
    ensures
        digits_value(cs@.subrange(lo as int, hi as int)) <= u32::MAX ==> r == Some(
            digits_value(cs@.subrange(lo as int, hi as int)) as u32,
        ),
        digits_value(cs@.subrange(lo as int, hi as int)) > u32::MAX ==> r is None,
{
    let ghost whole = cs@.subrange(lo as int, hi as int);
    let mut v: u64 = 0;
    let mut i = lo;
    assert(cs@.subrange(lo as int, lo as int) =~= Seq::<char>::empty());
    while i < hi
        invariant
            lo <= i <= hi <= cs@.len(),
            whole == cs@.subrange(lo as int, hi as int),
            all_digits(whole),
            v == digits_value(cs@.subrange(lo as int, i as int)),
            v <= u32::MAX,
        decreases hi - i,
    {
        let ghost next = cs@.subrange(lo as int, i + 1);
        assert(next.drop_last() =~= cs@.subrange(lo as int, i as int));
        assert(whole[i - lo] == cs@[i as int]);
        let d = (cs[i] as u32 - '0' as u32) as u64;
        v = v * 10 + d;
        if v > u32::MAX as u64 {
            proof {
                assert(whole.take(i + 1 - lo) =~= next);
                lemma_digits_value_prefix(whole, i + 1 - lo);
            }
            return None;
        }
        i = i + 1;
    }
    Some(v as u32)
}

/// Whether `cs[lo..hi]` has the shape `H…:MM:SS`.
pub(crate) fn is_hms_range(cs: &Vec<char>, lo: usize, hi: usize) -> (r: bool)
    requires
        lo <= hi <= cs@.len(),
    ensures
        r == hms_shape(cs@.subrange(lo as int, hi as int)),
{
    let ghost s = cs@.subrange(lo as int, hi as int);
    let n = hi - lo;
    if n >= 7 && digits_between(cs, lo, hi - 6) && cs[hi - 6] == ':' && is_digit_char(cs[hi - 5])
        && is_digit_char(cs[hi - 4]) && cs[hi - 3] == ':' && is_digit_char(cs[hi - 2])
        && is_digit_char(cs[hi - 1]) {
        assert(s.take(n - 6) =~= cs@.subrange(lo as int, hi - 6));
        true
    } else {
        assert(!hms_shape(s)) by {
            if hms_shape(s) {
                assert(s.take(n - 6) =~= cs@.subrange(lo as int, hi - 6));
            }
        }
        false
    }
}

/// A text of the shape `H…:MM:SS` holds only digits and colons.
pub proof fn lemma_hms_chars(s: Seq<char>)
    requires
        hms_shape(s),
    ensures
        forall|i: int| 0 <= i < s.len() ==> is_digit(#[trigger] s[i]) || s[i] == ':',
{
    let n = s.len() as int;
    assert forall|i: int| 0 <= i < s.len() implies is_digit(#[trigger] s[i]) || s[i] == ':' by {
        if i < n - 6 {
            assert(s.take(n - 6)[i] == s[i]);
        }
    }
}

/// Parses the time code written in `cs[lo..hi]`.
pub(crate) fn parse_range(cs: &Vec<char>, lo: usize, hi: usize) -> (r: Option<TimeCode>)
    requires
        lo <= hi <= cs@.len(),
    ensures
        r == time_code_of(cs@.subrange(lo as int, hi as int)),
{
    let ghost s = cs@.subrange(lo as int, hi as int);
    let n = hi - lo;
    if is_hms_range(cs, lo, hi) {
        assert(s.take(n - 6) =~= cs@.subrange(lo as int, hi - 6));
        let m = pair_at(cs, hi - 5);
        let sec = pair_at(cs, hi - 2);
        match value_between(cs, lo, hi - 6) {
            Some(h) => {
                if m <= 59 && sec <= 59 {
                    Some(TimeCode { hours: h, minutes: m, seconds: sec })
                } else {
                    None
                }
            },
            None => None,
        }
    } else if n >= 4 && digits_between(cs, lo, hi - 3) && cs[hi - 3] == ':' && is_digit_char(
        cs[hi - 2],
    ) && is_digit_char(cs[hi - 1]) {
        assert(s.take(n - 3) =~= cs@.subrange(lo as int, hi - 3));
        assert(ms_shape(s));
        let sec = pair_at(cs, hi - 2);
        match value_between(cs, lo, hi - 3) {
            Some(m) => {
                if m <= 59 && sec <= 59 {
                    Some(TimeCode { hours: 0, minutes: m, seconds: sec })
                } else {
                    None
                }
            },
            None => None,
        }
    } else {
        assert(!ms_shape(s)) by {
            if ms_shape(s) {
                assert(s.take(n - 3) =~= cs@.subrange(lo as int, hi - 3));
            }
        }
        None
    }
}

pub(crate) fn is_digit_char(c: char) -> (r: bool)
    ensures
        r == is_digit(c),
{
    '0' <= c && c <= '9'
}

/// The value of the two digits at `cs[i]`, `cs[i + 1]`.
fn pair_at(cs: &Vec<char>, i: usize) -> (r: u32)
    requires
        i + 1 < cs.len(),
        is_digit(cs@[i as int]),
        is_digit(cs@[i + 1]),
    ensures
        r == pair_value(cs@, i as int),
        r <= 99,
{
    let hi = cs[i];
    let lo = cs[i + 1];
    assert(lo == cs@[i + 1]);
    (hi as u32 - '0' as u32) * 10 + (lo as u32 - '0' as u32)
}

/// Appends the canonical text of `t` to `out`.
pub(crate) fn push_time_code(out: &mut String, t: &TimeCode)
    ensures
        final(out)@ == old(out)@ + time_code_text(*t),
{
    if t.hours > 0 {
        push_chars(out, &decimal_chars(t.hours));
        push_char(out, ':');
        push_two_digits(out, t.minutes);
        push_char(out, ':');
        push_two_digits(out, t.seconds);
        assert(out@ =~= old(out)@ + time_code_text(*t));
    } else {
        push_chars(out, &decimal_chars(t.minutes));
        push_char(out, ':');
        push_two_digits(out, t.seconds);
        assert(out@ =~= old(out)@ + time_code_text(*t));
    }
}

} // verus!
