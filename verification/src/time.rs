//! Points in time, and how long ago they read.

use vstd::prelude::*;

use crate::text;

verus! {

/// Nanoseconds in a second.
pub const SECOND: i128 = 1_000_000_000;

/// Nanoseconds in a millisecond.
pub const MILLISECOND: i128 = 1_000_000;

/// The first point in time that can be told, in nanoseconds from the Unix epoch.
pub const EARLIEST: i128 = -377_705_023_201_000_000_000;

/// The last point in time that can be told, in nanoseconds from the Unix epoch.
pub const LATEST: i128 = 253_402_207_200_999_999_999;

/// Whether a count of nanoseconds from the Unix epoch is a point in time that can be told.
pub open spec fn in_range(nanosecond: int) -> bool {
    EARLIEST <= nanosecond <= LATEST
}

/// `n / unit`, with what is left over cut off towards zero.
pub open spec fn whole(n: int, unit: int) -> int {
    if n >= 0 {
        n / unit
    } else {
        -((-n) / unit)
    }
}

/// The whole seconds in a count of nanoseconds from the Unix epoch.
///
/// Calls `jiff::Timestamp::from_nanosecond` and `jiff::Timestamp::as_second`.
/// Claimed of them: the first succeeds exactly on the counts between
/// `Timestamp::MIN` and `Timestamp::MAX`, and the second cuts the fraction of a
/// second off towards zero.
#[verifier::external_body]
fn second_of(nanosecond: i128) -> (r: Option<i64>)
    ensures
        r is Some <==> in_range(nanosecond as int),
        r matches Some(s) ==> s == whole(nanosecond as int, SECOND as int),
{
    jiff::Timestamp::from_nanosecond(nanosecond).ok().map(|t| t.as_second())
}

/// The whole milliseconds in a count of nanoseconds from the Unix epoch.
///
/// Calls `jiff::Timestamp::from_nanosecond` and
/// `jiff::Timestamp::as_millisecond`. Claimed of them: the first succeeds
/// exactly on the counts between `Timestamp::MIN` and `Timestamp::MAX`, and the
/// second cuts the fraction of a millisecond off towards zero.
#[verifier::external_body]
fn millisecond_of(nanosecond: i128) -> (r: Option<i64>)
    ensures
        r is Some <==> in_range(nanosecond as int),
        r matches Some(ms) ==> ms == whole(nanosecond as int, MILLISECOND as int),
{
    jiff::Timestamp::from_nanosecond(nanosecond).ok().map(|t| t.as_millisecond())
}

/// A point in time, kept to the nanosecond.
#[derive(Clone, Copy, Debug, PartialEq, Eq)]
pub struct Timestamp {
    nanosecond: i128,
}

impl View for Timestamp {
    type V = int;

    /// Nanoseconds from the Unix epoch, negative before it.
    closed spec fn view(&self) -> int {
        self.nanosecond as int
    }
}

impl Timestamp {
    #[verifier::type_invariant]
    spec fn well_formed(self) -> bool {
        in_range(self.nanosecond as int)
    }

    /// The point `nanosecond` nanoseconds from the Unix epoch, if it can be told.
    pub fn from_nanosecond(nanosecond: i128) -> (r: Option<Timestamp>)
        ensures
            r is Some <==> in_range(nanosecond as int),
            r matches Some(t) ==> t@ == nanosecond,
    {
        match second_of(nanosecond) {
            Some(_) => Some(Timestamp { nanosecond }),
            None => None,
        }
    }

    /// Nanoseconds from the Unix epoch.
    pub fn as_nanosecond(&self) -> (r: i128)
        ensures
            r == self@,
            in_range(self@),
    {
        proof {
            use_type_invariant(self);
        }
        self.nanosecond
    }

    /// Whole seconds from the Unix epoch.
    pub fn as_second(&self) -> (r: i64)
        ensures
            r == whole(self@, SECOND as int),
            in_range(self@),
    {
        proof {
            use_type_invariant(self);
        }
        match second_of(self.nanosecond) {
            Some(s) => s,
            None => 0,
        }
    }

    /// Whole milliseconds from the Unix epoch.
    pub fn as_millisecond(&self) -> (r: i64)
        ensures
            r == whole(self@, MILLISECOND as int),
            in_range(self@),
    {
        proof {
            use_type_invariant(self);
        }
        match millisecond_of(self.nanosecond) {
            Some(ms) => ms,
            None => 0,
        }
    }
}

/// Whole seconds from `past` to `now`, none where `past` is not before `now`.
pub open spec fn elapsed(now: int, past: int) -> int {
    let seconds = whole(now, SECOND as int) - whole(past, SECOND as int);
    if seconds > 0 {
        seconds
    } else {
        0
    }
}

/// How a point in time `seconds` seconds ago reads.
pub open spec fn age_text(seconds: int) -> Seq<char> {
    if seconds < 60 {
        "now"@
    } else if seconds < 3_600 {
        text::decimal((seconds / 60) as nat) + "m ago"@
    } else if seconds < 86_400 {
        text::decimal((seconds / 3_600) as nat) + "h ago"@
    } else if seconds < 604_800 {
        text::decimal((seconds / 86_400) as nat) + "d ago"@
    } else if seconds < 31_536_000 {
        text::decimal((seconds / 604_800) as nat) + "w ago"@
    } else {
        text::decimal((seconds / 31_536_000) as nat) + "y ago"@
    }
}

/// The decimal notation of `count`, followed by `unit`.
fn counted(count: u64, unit: &str) -> (r: String)
    ensures
        r@ == text::decimal(count as nat) + unit@,
{
    let mut out = String::new();
    text::push_decimal(&mut out, count);
    out.append(unit);
    assert(out@ =~= text::decimal(count as nat) + unit@);
    out
}

/// How `past` reads at `now`: in the largest unit that `past` is at least one
/// whole unit ago in, counted in whole units.
pub fn relative(now: &Timestamp, past: &Timestamp) -> (r: String)
    ensures
        r@ == age_text(elapsed(now@, past@)),
{
    let difference: i64 = now.as_second() - past.as_second();
    let seconds: u64 = if difference > 0 {
        difference as u64
    } else {
        0
    };
    if seconds < 60 {
        "now".to_owned()
    } else if seconds < 3_600 {
        counted(seconds / 60, "m ago")
    } else if seconds < 86_400 {
        counted(seconds / 3_600, "h ago")
    } else if seconds < 604_800 {
        counted(seconds / 86_400, "d ago")
    } else if seconds < 31_536_000 {
        counted(seconds / 604_800, "w ago")
    } else {
        counted(seconds / 31_536_000, "y ago")
    }
}

/// A point in time that is not in the past reads as now, whatever the clocks disagree by.
pub proof fn law_future_reads_now(now: int, past: int)
    requires
        now <= past,
    ensures
        age_text(elapsed(now, past)) == "now"@,
{
}

/// Cutting off leaves less than one unit out, goes towards zero, and goes alike on
/// both sides of it.
pub proof fn law_cutting_off_leaves_less_than_a_unit(n: int, unit: int)
    requires
        unit > 0,
    ensures
        -unit < n - whole(n, unit) * unit < unit,
        n >= 0 ==> 0 <= whole(n, unit) * unit <= n,
        whole(-n, unit) == -whole(n, unit),
{
    if n >= 0 {
        vstd::arithmetic::div_mod::lemma_fundamental_div_mod(n, unit);
        assert(n / unit >= 0) by (nonlinear_arith)
            requires
                n >= 0,
                unit > 0,
        ;
        assert(whole(n, unit) * unit == unit * (n / unit)) by (nonlinear_arith)
            requires
                whole(n, unit) == n / unit,
        ;
        assert(0 <= (n / unit) * unit) by (nonlinear_arith)
            requires
                n / unit >= 0,
                unit > 0,
        ;
    } else {
        vstd::arithmetic::div_mod::lemma_fundamental_div_mod(-n, unit);
        assert(whole(n, unit) * unit == -(unit * ((-n) / unit))) by (nonlinear_arith)
            requires
                whole(n, unit) == -((-n) / unit),
        ;
    }
    if n == 0 {
        assert(0int / unit == 0) by (nonlinear_arith)
            requires
                unit > 0,
        ;
    }
}

/// Between points on whole seconds, the seconds between them have elapsed, and
/// none where the first is not the earlier. Other points count as if what is
/// left over of a second were cut off.
pub proof fn law_elapsed_counts_seconds(now: int, past: int)
    ensures
        elapsed(now * SECOND, past * SECOND) == if now > past {
            now - past
        } else {
            0
        },
        elapsed(now, past) == elapsed(
            whole(now, SECOND as int) * SECOND,
            whole(past, SECOND as int) * SECOND,
        ),
{
    lemma_whole_of_multiple(now);
    lemma_whole_of_multiple(past);
    lemma_whole_of_multiple(whole(now, SECOND as int));
    lemma_whole_of_multiple(whole(past, SECOND as int));
}

proof fn lemma_whole_of_multiple(n: int)
    ensures
        whole(n * SECOND, SECOND as int) == n,
{
}

/// Whether ages of so many seconds, and of less than `next`, are counted in `unit`,
/// which reads as `letter`: minutes, hours, days, weeks, and years of 365 days,
/// after which nothing comes.
pub open spec fn is_unit(unit: int, next: int, letter: char) -> bool {
    ||| unit == 60 && next == 60 * 60 && letter == 'm'
    ||| unit == 60 * 60 && next == 24 * 60 * 60 && letter == 'h'
    ||| unit == 24 * 60 * 60 && next == 7 * 24 * 60 * 60 && letter == 'd'
    ||| unit == 7 * 24 * 60 * 60 && next == 365 * 24 * 60 * 60 && letter == 'w'
    ||| unit == 365 * 24 * 60 * 60 && letter == 'y'
}

/// An age reads in the largest unit of which a whole one has gone by, from the
/// minute on, and counts how many whole ones have: `3h ago` from three hours to
/// just under four.
pub proof fn law_age_counts_whole_units(seconds: int, count: nat, unit: int, next: int, letter: char)
    requires
        is_unit(unit, next, letter),
        unit <= seconds,
        letter != 'y' ==> seconds < next,
        count * unit <= seconds < (count + 1) * unit,
    ensures
        age_text(seconds) == text::decimal(count) + seq![letter, ' ', 'a', 'g', 'o'],
        count > 0,
{
    reveal_strlit("m ago");
    reveal_strlit("h ago");
    reveal_strlit("d ago");
    reveal_strlit("w ago");
    reveal_strlit("y ago");
    assert(seconds / unit == count) by (nonlinear_arith)
        requires
            unit > 0,
            count * unit <= seconds < (count + 1) * unit,
    ;
    assert(count > 0) by (nonlinear_arith)
        requires
            unit <= seconds,
            seconds < (count + 1) * unit,
            unit > 0,
    ;
    assert(age_text(seconds) =~= text::decimal(count) + seq![letter, ' ', 'a', 'g', 'o']);
}

/// What is less than a minute old reads as now.
pub proof fn law_the_last_minute_reads_now(seconds: int)
    requires
        seconds < 60,
    ensures
        age_text(seconds) == seq!['n', 'o', 'w'],
{
    reveal_strlit("now");
    assert(age_text(seconds) =~= seq!['n', 'o', 'w']);
}

} // verus!
