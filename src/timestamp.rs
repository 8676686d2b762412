//! Epoch-second timestamps: an approximate reading of a date/time text,
//! and the current time.

use vstd::prelude::*;

verus! {

/// Seconds in the approximate year used here (365.25 days).
pub const SECS_PER_YEAR: u64 = 31_557_600;

/// Seconds in the approximate month used here (one twelfth of a year).
pub const SECS_PER_MONTH: u64 = 2_629_800;

pub const SECS_PER_DAY: u64 = 86_400;

pub const SECS_PER_HOUR: u64 = 3_600;

pub const SECS_PER_MINUTE: u64 = 60;

pub const EPOCH_YEAR: u64 = 1970;

pub open spec fn is_digit(c: char) -> bool {
    '0' <= c && c <= '9'
}

/// The number that a sequence of decimal digits denotes.
pub open spec fn digits_value(s: Seq<char>) -> nat
    decreases s.len(),
{
    if s.len() == 0 {
        0
    } else {
        digits_value(s.drop_last()) * 10 + (s.last() as nat - '0' as nat) as nat
    }
}

pub open spec fn all_digits(s: Seq<char>) -> bool {
    forall|i: int| 0 <= i < s.len() ==> is_digit(#[trigger] s[i])
}

/// What reading `s` as an unsigned 64-bit decimal gives: an optional `+`,
/// then at least one digit, and a value that fits.
pub open spec fn u64_text_value(s: Seq<char>) -> Option<u64> {
    let d = if s.len() > 0 && s[0] == '+' { s.drop_first() } else { s };
    if d.len() > 0 && all_digits(d) && digits_value(d) <= u64::MAX {
        Some(digits_value(d) as u64)
    } else {
        None
    }
}

/// The value of the characters `start..end` of `s`, or zero where that range
/// is not inside `s` or does not read as a number.
pub open spec fn slice_value(s: Seq<char>, start: int, end: int) -> nat {
    if 0 <= start <= end <= s.len() {
        match u64_text_value(s.subrange(start, end)) {
            Some(v) => v as nat,
            None => 0,
        }
    } else {
        0
    }
}

pub open spec fn pow10(n: nat) -> nat
    decreases n,
{
    if n == 0 {
        1
    } else {
        10 * pow10((n - 1) as nat)
    }
}

/// The timestamp that a text of the shape `YYYY-MM-DD HH?MM` stands for, with
/// fixed approximate unit lengths; a field that does not read as a number
/// counts as zero, and so does a year before the epoch.
pub open spec fn timestamp_of(s: Seq<char>) -> nat {
    let year = slice_value(s, 0, 4);
    let year_secs = if year >= EPOCH_YEAR { ((year - EPOCH_YEAR) * SECS_PER_YEAR) as nat } else { 0 };
    (year_secs + slice_value(s, 5, 7) * SECS_PER_MONTH + slice_value(s, 8, 10) * SECS_PER_DAY
        + slice_value(s, 11, 13) * SECS_PER_HOUR + slice_value(s, 16, 18) * SECS_PER_MINUTE) as nat
}

proof fn lemma_digits_bound(s: Seq<char>)
    requires
        all_digits(s),
    ensures
        digits_value(s) < pow10(s.len()),
    decreases s.len(),
{
    if s.len() > 0 {
        let p = s.drop_last();
        assert(all_digits(p)) by {
            assert forall|i: int| 0 <= i < p.len() implies is_digit(#[trigger] p[i]) by {
                assert(p[i] == s[i]);
            }
        }
        lemma_digits_bound(p);
        assert(is_digit(s[s.len() - 1]));
        assert(pow10(s.len()) == 10 * pow10(p.len()));
    }
}

proof fn lemma_slice_bound(s: Seq<char>, start: int, end: int)
    requires
        end - start <= 4,
    ensures
        slice_value(s, start, end) < 10000,
{
    if 0 <= start <= end <= s.len() {
        let t = s.subrange(start, end);
        let d = if t.len() > 0 && t[0] == '+' { t.drop_first() } else { t };
        if d.len() > 0 && all_digits(d) && digits_value(d) <= u64::MAX {
            lemma_digits_bound(d);
            assert(pow10(0) == 1);
            assert(pow10(1) == 10);
            assert(pow10(2) == 100);
            assert(pow10(3) == 1000);
            assert(pow10(4) == 10000);
            assert(pow10(d.len()) <= 10000);
        }
    }
}

/// The characters of `s`, one per element.
pub fn chars_of(s: &str) -> (r: Vec<char>)
    ensures
        r@ == s@,
{
    let n = s.unicode_len();
    let mut r: Vec<char> = Vec::new();
    let mut i: usize = 0;
    while i < n
        invariant
            n == s@.len(),
            i <= n,
            r@ == s@.subrange(0, i as int),
        decreases n - i,
    {
        r.push(s.get_char(i));
        i = i + 1;
    }
    assert(r@ =~= s@);
    r
}

/// Reads the characters `start..end` of `string` as an unsigned decimal; zero
/// where the range lies outside the text or the characters are no number.
pub fn parse_timeslice(string: &str, start: usize, end: usize) -> (r: u64)
    ensures
        r as nat == slice_value(string@, start as int, end as int),
{
    let cs = chars_of(string);
    parse_range(&cs, start, end)
}

fn parse_range(cs: &Vec<char>, start: usize, end: usize) -> (r: u64)
    ensures
        r as nat == slice_value(cs@, start as int, end as int),
{
    if !(start <= end && end <= cs.len()) {
        return 0;
    }
    let ghost t = cs@.subrange(start as int, end as int);
    let mut i: usize = start;
    if i < end && cs[i] == '+' {
        i = i + 1;
    }
    let first = i;
    let ghost d = cs@.subrange(first as int, end as int);
    assert(d =~= (if t.len() > 0 && t[0] == '+' { t.drop_first() } else { t }));
    if first == end {
        return 0;
    }
    let mut acc: u64 = 0;
    let mut over: bool = false;
    while i < end
        invariant
            first <= i <= end <= cs@.len(),
            d == cs@.subrange(first as int, end as int),
            t == cs@.subrange(start as int, end as int),
            d == (if t.len() > 0 && t[0] == '+' { t.drop_first() } else { t }),
            d.len() > 0,
            all_digits(cs@.subrange(first as int, i as int)),
            over ==> digits_value(cs@.subrange(first as int, i as int)) > u64::MAX,
            !over ==> acc as nat == digits_value(cs@.subrange(first as int, i as int)),
        decreases end - i,
    {
        let c = cs[i];
        let ghost p = cs@.subrange(first as int, i as int);
        let ghost q = cs@.subrange(first as int, i + 1);
        assert(q.drop_last() =~= p);
        if !('0' <= c && c <= '9') {
            assert(d[i - first] == c);
            assert(!is_digit(d[i - first]));
            assert(!all_digits(d));
            assert(u64_text_value(t) is None);
            return 0;
        }
        let dig: u64 = (c as u64) - ('0' as u64);
        assert(digits_value(q) == digits_value(p) * 10 + dig);
        if !over {
            if acc > (u64::MAX - dig) / 10 {
                over = true;
            } else {
                acc = acc * 10 + dig;
            }
        }
        assert(all_digits(q)) by {
            assert forall|k: int| 0 <= k < q.len() implies is_digit(#[trigger] q[k]) by {
                if k < p.len() {
                    assert(q[k] == p[k]);
                }
            }
        }
        i = i + 1;
    }
    assert(cs@.subrange(first as int, end as int) =~= d);
    if over {
        0
    } else {
        acc
    }
}

/// The approximate epoch-second timestamp of a date/time text
/// `YYYY-MM-DD HH:MM`: the year (characters 0..4, counted from 1970), month
/// (5..7), day (8..10), hour (11..13) and minute (16..18), with 365.25-day
/// years and months of a twelfth of that.
pub fn timestamp_from_str(string: String) -> (r: u64)
    ensures
        r as nat == timestamp_of(string@),
{
    let cs = chars_of(string.as_str());
    let year = parse_range(&cs, 0, 4);
    let month = parse_range(&cs, 5, 7);
    let day = parse_range(&cs, 8, 10);
    let hour = parse_range(&cs, 11, 13);
    let min = parse_range(&cs, 16, 18);
    proof {
        lemma_slice_bound(cs@, 0, 4);
        lemma_slice_bound(cs@, 5, 7);
        lemma_slice_bound(cs@, 8, 10);
        lemma_slice_bound(cs@, 11, 13);
        lemma_slice_bound(cs@, 16, 18);
    }
    let year_secs: u64 = if year >= EPOCH_YEAR { (year - EPOCH_YEAR) * SECS_PER_YEAR } else { 0 };
    year_secs + month * SECS_PER_MONTH + day * SECS_PER_DAY + hour * SECS_PER_HOUR + min * SECS_PER_MINUTE
}

/// The system clock read before the Unix epoch.
#[derive(Debug, Clone, Copy, PartialEq, Eq)]
pub struct ClockError;

/// Relies on std's `SystemTime::now` and `SystemTime::duration_since`: the
/// whole seconds since the Unix epoch, or `None` where the clock reads earlier.
#[verifier::external_body]
fn clock_seconds() -> (r: Option<u64>) {
    match std::time::SystemTime::now().duration_since(std::time::SystemTime::UNIX_EPOCH) {
        Ok(d) => Some(d.as_secs()),
        Err(_) => None,
    }
}

/// Seconds since the Unix epoch; an error where the clock reads earlier.
pub fn get_now() -> (r: Result<u64, ClockError>) {
    match clock_seconds() {
        Some(n) => Ok(n),
        None => Err(ClockError),
    }
}

} // verus!
