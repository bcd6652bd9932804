//! Calendar days and clock times, from the `chrono` crate.
//!
//! A day is held by its number in the proleptic Gregorian calendar, 1 January of year 1 being
//! day 1.

use chrono::{Datelike, Days, NaiveDate, TimeDelta, Timelike};
use rand::rngs::StdRng;
use vstd::prelude::*;

use crate::draws::{draw_u64, draw_usize, drawn_u64, drawn_usize};
use crate::text::{law_two_digits_read_back, number_in, two_digits};

verus! {

/// The first day that `chrono` can represent.
pub const FIRST_DAY: i32 = -95_746_129;

/// The last day that `chrono` can represent.
pub const LAST_DAY: i32 = 95_745_399;

/// Ordinary log lines come from the last seven days.
pub const DAYS_SPAN: u64 = 7;

/// A moment of the local calendar and clock, with the time stamp that it has.
#[derive(Clone, Copy, Debug, PartialEq, Eq, Structural)]
pub struct Stamp {
    /// Seconds since the start of 1970, UTC.
    pub epoch: i64,
    /// The local calendar day.
    pub day: i32,
    /// The local hour.
    pub hour: u32,
    /// The local minute.
    pub minute: u32,
    /// The local second.
    pub second: u32,
}

/// A moment of the local calendar and clock.
#[derive(Clone, Copy, Debug, PartialEq, Eq, Structural)]
pub struct Moment {
    pub day: i32,
    pub hour: u32,
    pub minute: u32,
    pub second: u32,
}

/// Why a moment could not be built.
#[derive(Clone, Copy, Debug, PartialEq, Eq, Structural)]
pub enum TimeError {
    /// The day lies before the calendar's first day.
    DayUnderflow,
    /// There is no such clock time.
    BadClock,
}

pub open spec fn in_calendar(day: int) -> bool {
    FIRST_DAY <= day <= LAST_DAY
}

/// The day of the week, Monday being 0.
pub open spec fn weekday_of(day: int) -> int {
    (day - 1) % 7
}

/// Saturday or Sunday.
pub open spec fn weekend(day: int) -> bool {
    weekday_of(day) >= 5
}

pub open spec fn clock(hour: int, minute: int, second: int) -> bool {
    0 <= hour < 24 && 0 <= minute < 60 && 0 <= second < 60
}

impl Moment {
    pub open spec fn valid(self) -> bool {
        in_calendar(self.day as int) && clock(
            self.hour as int,
            self.minute as int,
            self.second as int,
        )
    }

    /// The seconds since the start of day 0.
    pub open spec fn seconds(self) -> int {
        self.day * 86_400 + self.hour * 3_600 + self.minute * 60 + self.second
    }
}

/// The moment so many seconds after the start of day 0.
pub open spec fn moment_at(seconds: int) -> Moment {
    Moment {
        day: (seconds / 86_400) as i32,
        hour: (seconds % 86_400 / 3_600) as u32,
        minute: (seconds % 3_600 / 60) as u32,
        second: (seconds % 60) as u32,
    }
}

/// A moment is known by its seconds.
pub proof fn law_moment_of_seconds(at: Moment)
    requires
        at.valid(),
    ensures
        moment_at(at.seconds()) == at,
{
}

impl Stamp {
    pub open spec fn moment(self) -> Moment {
        Moment { day: self.day, hour: self.hour, minute: self.minute, second: self.second }
    }

    pub open spec fn valid(self) -> bool {
        self.moment().valid()
    }

    /// Is there such a day and clock time?
    pub fn is_valid(&self) -> (r: bool)
        ensures
            r == self.valid(),
    {
        FIRST_DAY <= self.day && self.day <= LAST_DAY && self.hour < 24 && self.minute < 60
            && self.second < 60
    }

    /// The moment of the local calendar and clock.
    pub fn local(&self) -> (r: Moment)
        ensures
            r == self.moment(),
    {
        Moment { day: self.day, hour: self.hour, minute: self.minute, second: self.second }
    }
}

/// `NaiveDate::weekday`, counted from Monday: the days of the calendar run through the week
/// without a gap, and day 1 is a Monday.
#[verifier::external_body]
fn weekday(day: i32) -> (r: u32)
    requires
        in_calendar(day as int),
    ensures
        r == weekday_of(day as int),
{
    NaiveDate::from_num_days_from_ce_opt(day).unwrap().weekday().num_days_from_monday()
}

/// `NaiveDate::checked_sub_days`: the day so many days earlier, unless that lies before the
/// first day of the calendar.
#[verifier::external_body]
fn days_before(day: i32, back: u64) -> (r: Option<i32>)
    requires
        in_calendar(day as int),
    ensures
        r is Some <==> in_calendar(day - back),
        r is Some ==> r->0 == day - back,
{
    NaiveDate::from_num_days_from_ce_opt(day).unwrap().checked_sub_days(Days::new(back)).map(
        |d| d.num_days_from_ce(),
    )
}

/// `NaiveDate::and_hms_opt`: a clock time exists if its hour, minute and second are in range.
#[verifier::external_body]
fn has_clock(day: i32, hour: u32, minute: u32, second: u32) -> (r: bool)
    requires
        in_calendar(day as int),
    ensures
        r == clock(hour as int, minute as int, second as int),
{
    NaiveDate::from_num_days_from_ce_opt(day).unwrap().and_hms_opt(hour, minute, second).is_some()
}

/// `NaiveDateTime` plus `TimeDelta::seconds`: the moment so many seconds later. Leaving the
/// calendar would panic.
#[verifier::external_body]
fn seconds_after(at: Moment, seconds: u32) -> (r: Moment)
    requires
        at.valid(),
        at.seconds() + seconds < (LAST_DAY + 1) * 86_400,
    ensures
        r.valid(),
        r.seconds() == at.seconds() + seconds,
{
    let date = NaiveDate::from_num_days_from_ce_opt(at.day).unwrap();
    let t = date.and_hms_opt(at.hour, at.minute, at.second).unwrap() + TimeDelta::seconds(
        seconds as i64,
    );
    Moment {
        day: t.date().num_days_from_ce(),
        hour: t.hour(),
        minute: t.minute(),
        second: t.second(),
    }
}

/// What `NaiveDateTime::format` writes for a day, before the space, under a pattern whose part
/// before the space has fields of the date only.
pub uninterp spec fn date_text(day: i32, pattern: Seq<char>) -> Seq<char>;

/// A clock time as it is shown, two digits each.
pub open spec fn clock_text(hour: u32, minute: u32, second: u32) -> Seq<char> {
    two_digits(hour as nat) + ":"@ + two_digits(minute as nat) + ":"@ + two_digits(second as nat)
}

/// A moment as it is shown.
pub open spec fn moment_text(at: Moment) -> Seq<char> {
    date_text(at.day, "%Y-%m-%d %H:%M:%S"@) + " "@ + clock_text(at.hour, at.minute, at.second)
}

/// A moment as it is shown where the year is clear.
pub open spec fn short_text(at: Moment) -> Seq<char> {
    date_text(at.day, "%m-%d %H:%M:%S"@) + " "@ + clock_text(at.hour, at.minute, at.second)
}

/// `NaiveDateTime::format` with the pattern `%Y-%m-%d %H:%M:%S` or `%m-%d %H:%M:%S`: the date, a
/// space, and hour, minute and second with two digits each. How the date is written follows from
/// the day and the pattern alone and is left unsaid.
#[verifier::external_body]
fn format_moment(at: Moment, pattern: &str) -> (r: String)
    requires
        at.valid(),
        pattern@ == "%Y-%m-%d %H:%M:%S"@ || pattern@ == "%m-%d %H:%M:%S"@,
    ensures
        r@ == date_text(at.day, pattern@) + " "@ + clock_text(at.hour, at.minute, at.second),
{
    let date = NaiveDate::from_num_days_from_ce_opt(at.day).unwrap();
    date.and_hms_opt(at.hour, at.minute, at.second).unwrap().format(pattern).to_string()
}

impl Moment {
    /// The moment as it is shown.
    pub fn shown(self) -> (r: String)
        requires
            self.valid(),
        ensures
            r@ == moment_text(self),
    {
        format_moment(self, "%Y-%m-%d %H:%M:%S")
    }

    /// The moment as it is shown where the year is clear.
    pub fn shown_short(self) -> (r: String)
        requires
            self.valid(),
        ensures
            r@ == short_text(self),
    {
        format_moment(self, "%m-%d %H:%M:%S")
    }
}

/// Saturday or Sunday?
pub fn is_weekend(day: i32) -> (r: bool)
    requires
        in_calendar(day as int),
    ensures
        r == weekend(day as int),
{
    weekday(day) >= 5
}

/// The moment `days_back` days before `today` at the given clock time.
pub fn make_time(today: i32, days_back: u64, hour: u32, minute: u32, second: u32) -> (r: Result<
    Moment,
    TimeError,
>)
    requires
        in_calendar(today as int),
    ensures
        !in_calendar(today - days_back) <==> r == Err::<Moment, TimeError>(
            TimeError::DayUnderflow,
        ),
        in_calendar(today - days_back) && !clock(hour as int, minute as int, second as int) <==> r
            == Err::<Moment, TimeError>(TimeError::BadClock),
        r is Ok ==> r->Ok_0 == (Moment {
            day: (today - days_back) as i32,
            hour,
            minute,
            second,
        }),
{
    match days_before(today, days_back) {
        None => Err(TimeError::DayUnderflow),
        Some(day) => {
            if has_clock(day, hour, minute, second) {
                Ok(Moment { day, hour, minute, second })
            } else {
                Err(TimeError::BadClock)
            }
        },
    }
}

/// The moment `seconds` seconds after `at`.
pub fn later(at: Moment, seconds: u32) -> (r: Moment)
    requires
        at.valid(),
        at.seconds() + seconds < (LAST_DAY + 1) * 86_400,
    ensures
        r.valid(),
        r.seconds() == at.seconds() + seconds,
{
    seconds_after(at, seconds)
}

/// Is the day `back` days before `today` in the calendar, and from Monday to Friday?
pub open spec fn workday_back(today: int, back: int) -> bool {
    in_calendar(today - back) && !weekend(today - back)
}

pub fn is_workday_back(today: i32, back: u64) -> (r: bool)
    requires
        in_calendar(today as int),
    ensures
        r == workday_back(today as int, back as int),
{
    match days_before(today, back) {
        None => false,
        Some(day) => !is_weekend(day),
    }
}

/// A workday is drawn for at most this many times.
pub const WORKDAY_TRIES: usize = 30;

/// The number of days that leads back to the nearest workday: none from a workday, one from a
/// Saturday, two from a Sunday.
pub open spec fn nearest_workday(today: int) -> u64 {
    if weekday_of(today) < 5 {
        0
    } else {
        (weekday_of(today) - 4) as u64
    }
}

/// The nearest workday lies in the calendar: its first day is a Thursday.
pub proof fn law_nearest_workday(today: int)
    requires
        in_calendar(today),
    ensures
        nearest_workday(today) < DAYS_SPAN,
        workday_back(today, nearest_workday(today) as int),
        forall|back: int| 0 <= back < nearest_workday(today) ==> !workday_back(today, back),
{
    assert(weekday_of(FIRST_DAY as int) == 3);
    let gap = today - FIRST_DAY;
    if gap == 0 || gap == 1 {
        assert(weekday_of(today) == 3 + gap);
    }
}

/// Looks back day by day for the nearest workday.
fn find_workday(today: i32) -> (r: u64)
    requires
        in_calendar(today as int),
    ensures
        r == nearest_workday(today as int),
{
    proof {
        law_nearest_workday(today as int);
    }
    let mut back: u64 = 0;
    while !is_workday_back(today, back)
        invariant
            in_calendar(today as int),
            back <= nearest_workday(today as int) < DAYS_SPAN,
            workday_back(today as int, nearest_workday(today as int) as int),
            forall|b: int| 0 <= b < back ==> !workday_back(today as int, b),
        decreases nearest_workday(today as int) - back,
    {
        back = back + 1;
    }
    back
}

/// What a draw settles, after `earlier` draws that settled nothing: a draw that leads back to a
/// workday is taken, the last draw allowed gives the nearest workday if it does not, and any
/// other draw is followed by another.
pub open spec fn settled(today: int, earlier: int, back: u64) -> Option<u64> {
    if workday_back(today, back as int) {
        Some(back)
    } else if earlier + 1 >= WORKDAY_TRIES {
        Some(nearest_workday(today))
    } else {
        None
    }
}

/// What a draw settles, after `earlier` draws that settled nothing; `None` calls for another.
pub fn settle_draw(today: i32, earlier: usize, back: u64) -> (r: Option<u64>)
    requires
        in_calendar(today as int),
    ensures
        r == settled(today as int, earlier as int, back),
{
    if is_workday_back(today, back) {
        Some(back)
    } else if earlier >= WORKDAY_TRIES - 1 {
        Some(find_workday(today))
    } else {
        None
    }
}

/// `back` is what the draws `drawn` come to: each is below `DAYS_SPAN`, and the last is the first
/// that settles anything.
pub open spec fn drawn_to(today: int, drawn: Seq<u64>, back: u64) -> bool {
    &&& 1 <= drawn.len() <= WORKDAY_TRIES
    &&& forall|k: int| 0 <= k < drawn.len() ==> (#[trigger] drawn[k]) < DAYS_SPAN
    &&& forall|k: int| 0 <= k < drawn.len() - 1 ==> settled(today, k, #[trigger] drawn[k]) is None
    &&& settled(today, drawn.len() - 1, drawn.last()) == Some(back)
}

/// What the draws from a generator come to, after `earlier` of them that settled nothing, and the
/// generator that they leave behind.
pub open spec fn workday_from(source: StdRng, today: int, earlier: int) -> (u64, StdRng)
    decreases WORKDAY_TRIES - earlier,
{
    let (back, next) = drawn_u64(source, 0, DAYS_SPAN);
    match settled(today, earlier, back) {
        Some(found) => (found, next),
        None => workday_from(next, today, earlier + 1),
    }
}

/// A number of days, below `DAYS_SPAN`, that leads back from `today` to a workday. Draws up to
/// thirty times; should every draw hit a weekend, the nearest workday is taken.
pub fn workday_offset(rng: &mut StdRng, today: i32) -> (r: u64)
    requires
        in_calendar(today as int),
    ensures
        exists|drawn: Seq<u64>| #[trigger] drawn_to(today as int, drawn, r),
        r < DAYS_SPAN,
        workday_back(today as int, r as int),
        (r, *final(rng)) == workday_from(*old(rng), today as int, 0),
{
    proof {
        law_nearest_workday(today as int);
    }
    let ghost mut drawn: Seq<u64> = Seq::empty();
    let mut earlier: usize = 0;
    loop
        invariant
            in_calendar(today as int),
            nearest_workday(today as int) < DAYS_SPAN,
            workday_back(today as int, nearest_workday(today as int) as int),
            drawn.len() == earlier,
            earlier < WORKDAY_TRIES,
            forall|k: int| 0 <= k < earlier ==> (#[trigger] drawn[k]) < DAYS_SPAN,
            forall|k: int|
                0 <= k < earlier ==> settled(today as int, k, #[trigger] drawn[k]) is None,
            workday_from(*rng, today as int, earlier as int) == workday_from(
                *old(rng),
                today as int,
                0,
            ),
        decreases WORKDAY_TRIES - earlier,
    {
        let d = draw_u64(rng, 0, DAYS_SPAN);
        proof {
            drawn = drawn.push(d);
        }
        if let Some(back) = settle_draw(today, earlier, d) {
            assert(drawn_to(today as int, drawn, back));
            return back;
        }
        earlier = earlier + 1;
    }
}

/// The numbers of days from 1 to 13 that lead back from `today` to a weekend, in ascending order.
pub open spec fn weekend_backs(today: int, upto: int) -> Seq<u64>
    decreases upto,
{
    if upto <= 1 {
        Seq::empty()
    } else if in_calendar(today - (upto - 1)) && weekend(today - (upto - 1)) {
        weekend_backs(today, upto - 1).push((upto - 1) as u64)
    } else {
        weekend_backs(today, upto - 1)
    }
}

/// The days before `today`, among the last thirteen, that fall on a weekend.
pub fn weekend_candidates(today: i32) -> (r: Vec<u64>)
    requires
        in_calendar(today as int),
    ensures
        r@ == weekend_backs(today as int, 14),
{
    let mut candidates: Vec<u64> = Vec::new();
    for d in 1..14u64
        invariant
            in_calendar(today as int),
            candidates@ == weekend_backs(today as int, d as int),
    {
        if let Some(day) = days_before(today, d) {
            if is_weekend(day) {
                candidates.push(d);
            }
        }
    }
    candidates
}

/// The weekend day that a draw from a generator picks, as a number of days before `today`, and the
/// generator that the draw leaves behind.
pub open spec fn weekend_from(source: StdRng, today: int) -> (u64, StdRng) {
    let backs = weekend_backs(today, 14);
    if backs.len() == 0 {
        (6, source)
    } else {
        let (idx, next) = drawn_usize(source, 0, backs.len() as usize, usize::BITS);
        (backs[idx as int], next)
    }
}

/// Picks one of the last thirteen days' weekend days, as a number of days before `today`; six
/// days if there is none.
pub fn weekend_day_back(rng: &mut StdRng, today: i32) -> (r: u64)
    requires
        in_calendar(today as int),
    ensures
        weekend_backs(today as int, 14).len() == 0 ==> r == 6,
        weekend_backs(today as int, 14).len() > 0 ==> weekend_backs(today as int, 14).contains(r),
        (r, *final(rng)) == weekend_from(*old(rng), today as int),
{
    let candidates = weekend_candidates(today);
    if candidates.len() == 0 {
        return 6;
    }
    let idx = draw_usize(rng, 0, candidates.len());
    candidates[idx]
}

proof fn lemma_weekend_backs(today: int, upto: int, back: u64)
    requires
        upto <= 14,
    ensures
        weekend_backs(today, upto).contains(back) <==> 1 <= back < upto && in_calendar(
            today - back,
        ) && weekend(today - back),
    decreases upto,
{
    if upto > 1 {
        lemma_weekend_backs(today, upto - 1, back);
        let shorter = weekend_backs(today, upto - 1);
        let last = (upto - 1) as u64;
        if in_calendar(today - (upto - 1)) && weekend(today - (upto - 1)) {
            let longer = shorter.push(last);
            if shorter.contains(back) {
                let q = choose|q: int| 0 <= q < shorter.len() && shorter[q] == back;
                assert(longer[q] == back);
            }
            if longer.contains(back) {
                let q = choose|q: int| 0 <= q < longer.len() && longer[q] == back;
                if q < shorter.len() {
                    assert(shorter[q] == back);
                }
            }
            assert(longer[shorter.len() as int] == last);
        }
    }
}

/// A back count is among the candidates exactly if it leads to a weekend day of the last two
/// weeks.
pub proof fn law_weekend_candidates(today: int, back: u64)
    ensures
        weekend_backs(today, 14).contains(back) <==> 1 <= back < 14 && in_calendar(today - back)
            && weekend(today - back),
{
    lemma_weekend_backs(today, 14, back);
}

/// Two weeks always hold a weekend: once the calendar reaches back six days, there is a
/// candidate.
pub proof fn law_weekend_within_two_weeks(today: int)
    requires
        in_calendar(today),
        in_calendar(today - 6),
    ensures
        weekend_backs(today, 14).len() > 0,
{
    let back = if weekday_of(today) == 0 || weekday_of(today) == 6 {
        1u64
    } else {
        (weekday_of(today) + 1) as u64
    };
    assert(weekend(today - back));
    lemma_weekend_backs(today, 14, back);
}

/// How many of the `span` days that end with `today` are workdays.
pub open spec fn workdays(today: int, span: nat) -> nat
    decreases span,
{
    if span == 0 {
        0
    } else {
        workdays(today, (span - 1) as nat) + if workday_back(today, span - 1) {
            1nat
        } else {
            0nat
        }
    }
}

proof fn lemma_weekday_back(today: int, back: int)
    requires
        0 <= back < 7,
    ensures
        weekday_of(today - back) == if weekday_of(today) >= back {
            weekday_of(today) - back
        } else {
            weekday_of(today) - back + 7
        },
{
}

/// Any seven days in a row hold five workdays.
pub proof fn law_five_workdays(today: int)
    requires
        in_calendar(today),
        in_calendar(today - 6),
    ensures
        workdays(today, 7) == 5,
{
    let w = weekday_of(today);
    lemma_weekday_back(today, 1);
    lemma_weekday_back(today, 2);
    lemma_weekday_back(today, 3);
    lemma_weekday_back(today, 4);
    lemma_weekday_back(today, 5);
    lemma_weekday_back(today, 6);
    assert(workdays(today, 1) == if w < 5 { 1nat } else { 0nat }) by {
        reveal_with_fuel(workdays, 2);
    }
    assert(workdays(today, 2) == workdays(today, 1) + if w == 0 || w == 6 { 0nat } else { 1nat });
    assert(workdays(today, 3) == workdays(today, 2) + if w == 0 || w == 1 { 0nat } else { 1nat });
    assert(workdays(today, 4) == workdays(today, 3) + if w == 1 || w == 2 { 0nat } else { 1nat });
    assert(workdays(today, 5) == workdays(today, 4) + if w == 2 || w == 3 { 0nat } else { 1nat });
    assert(workdays(today, 6) == workdays(today, 5) + if w == 3 || w == 4 { 0nat } else { 1nat });
    assert(workdays(today, 7) == workdays(today, 6) + if w == 4 || w == 5 { 0nat } else { 1nat });
}

/// The days run through the week: the day after a day has the next weekday, seven days on it is
/// the same one, day 1 is a Monday, and Saturday and Sunday are the weekend.
pub proof fn law_week(day: int)
    ensures
        0 <= weekday_of(day) < 7,
        weekday_of(1) == 0,
        weekday_of(day) < 6 ==> weekday_of(day + 1) == weekday_of(day) + 1,
        weekday_of(day) == 6 ==> weekday_of(day + 1) == 0,
        weekday_of(day + 7) == weekday_of(day),
        weekend(day) <==> day % 7 == 6 || day % 7 == 0,
{
}

/// A step of the clock by a second, a minute, an hour or a day is 1, 60, 3600 or 86400 seconds,
/// and a moment is valid exactly if its day is in the calendar, its hour below 24 and its minute
/// and second below 60.
pub proof fn law_units_of_time(at: Moment, later_at: Moment)
    requires
        at.valid(),
        later_at.valid(),
    ensures
        later_at.seconds() - at.seconds() == (later_at.day - at.day) * 86_400 + (later_at.hour
            - at.hour) * 3_600 + (later_at.minute - at.minute) * 60 + (later_at.second - at.second),
        at.hour < 24,
        at.minute < 60,
        at.second < 60,
        -95_746_129 <= at.day <= 95_745_399,
        at.seconds() == later_at.seconds() ==> at == later_at,
        at.day < later_at.day ==> at.seconds() < later_at.seconds(),
{
    law_moment_of_seconds(at);
    law_moment_of_seconds(later_at);
}

/// There is a moment on every day of the calendar at every clock time.
pub proof fn law_moments_exist(at: Moment)
    requires
        -95_746_129 <= at.day <= 95_745_399,
        at.hour < 24,
        at.minute < 60,
        at.second < 60,
    ensures
        at.valid(),
{
}

/// A draw that leads back to a day from Monday to Friday is taken; another is followed by a new
/// one, but for the thirtieth, which gives the nearest workday.
pub proof fn law_draws_settle(today: int, earlier: int, back: u64)
    requires
        in_calendar(today),
        earlier >= 0,
    ensures
        in_calendar(today - back) && 1 <= (today - back) % 7 <= 5 <==> workday_back(
            today,
            back as int,
        ),
        workday_back(today, back as int) ==> settled(today, earlier, back) == Some(back),
        !workday_back(today, back as int) && earlier < 29 ==> settled(today, earlier, back) is None,
        !workday_back(today, back as int) && earlier >= 29 ==> {
            let found = settled(today, earlier, back);
            &&& found is Some
            &&& workday_back(today, found->0 as int)
            &&& found->0 <= 2
            &&& forall|nearer: int| 0 <= nearer < found->0 ==> !workday_back(today, nearer)
        },
{
    law_nearest_workday(today);
}

/// Whatever is drawn, a workday comes out. The first draw decides if it leads to a workday; if it
/// does not, and draws are left, the next ones decide as if it had not been made.
pub proof fn law_workday_is_drawn(source: StdRng, today: int, earlier: int)
    requires
        in_calendar(today),
        0 <= earlier < 30,
    ensures
        workday_back(today, workday_from(source, today, earlier).0 as int),
        ({
            let (back, next) = drawn_u64(source, 0, 7);
            &&& workday_back(today, back as int) ==> workday_from(source, today, earlier) == (
                back,
                next,
            )
            &&& !workday_back(today, back as int) && earlier < 29 ==> workday_from(
                source,
                today,
                earlier,
            ) == workday_from(next, today, earlier + 1)
            &&& earlier == 29 ==> workday_from(source, today, earlier).1 == next
        }),
    decreases 30 - earlier,
{
    law_nearest_workday(today);
    let (back, next) = drawn_u64(source, 0, 7);
    if !workday_back(today, back as int) && earlier < 29 {
        law_workday_is_drawn(next, today, earlier + 1);
    }
}

proof fn lemma_backs_ascend(today: int, upto: int, i: int, j: int)
    requires
        upto <= 14,
        0 <= i < j < weekend_backs(today, upto).len(),
    ensures
        weekend_backs(today, upto)[i] < weekend_backs(today, upto)[j],
    decreases upto,
{
    if upto > 1 {
        let less = weekend_backs(today, upto - 1);
        if j < less.len() {
            lemma_backs_ascend(today, upto - 1, i, j);
        } else {
            assert(less.contains(less[i]));
            lemma_weekend_backs(today, upto - 1, less[i]);
        }
    }
}

/// The candidates for a weekend day ascend, so that each is listed once, and the draw picks among
/// all of them by its place.
pub proof fn law_weekend_is_drawn(source: StdRng, today: int)
    ensures
        forall|i: int, j: int|
            0 <= i < j < weekend_backs(today, 14).len() ==> weekend_backs(today, 14)[i]
                < weekend_backs(today, 14)[j],
        weekend_backs(today, 14).len() == 0 ==> weekend_from(source, today) == (6u64, source),
        weekend_backs(today, 14).len() > 0 ==> {
            let n = weekend_backs(today, 14).len() as usize;
            let (idx, next) = drawn_usize(source, 0, n, usize::BITS);
            weekend_from(source, today) == (weekend_backs(today, 14)[idx as int], next)
        },
{
    assert forall|i: int, j: int| 0 <= i < j < weekend_backs(today, 14).len() implies weekend_backs(
        today,
        14,
    )[i] < weekend_backs(today, 14)[j] by {
        lemma_backs_ascend(today, 14, i, j);
    }
}

/// A clock time is shown in eight characters: hour, minute and second with two digits each, and
/// colons between them. A moment is shown as its date, a space and its clock time.
pub proof fn law_clock_is_shown(at: Moment)
    requires
        at.valid(),
    ensures
        clock_text(at.hour, at.minute, at.second).len() == 8,
        number_in(clock_text(at.hour, at.minute, at.second).subrange(0, 2)) == at.hour,
        clock_text(at.hour, at.minute, at.second)[2] == ':',
        number_in(clock_text(at.hour, at.minute, at.second).subrange(3, 5)) == at.minute,
        clock_text(at.hour, at.minute, at.second)[5] == ':',
        number_in(clock_text(at.hour, at.minute, at.second).subrange(6, 8)) == at.second,
        moment_text(at) == date_text(at.day, "%Y-%m-%d %H:%M:%S"@) + " "@ + clock_text(
            at.hour,
            at.minute,
            at.second,
        ),
        short_text(at) == date_text(at.day, "%m-%d %H:%M:%S"@) + " "@ + clock_text(
            at.hour,
            at.minute,
            at.second,
        ),
{
    reveal_strlit(":");
    law_two_digits_read_back(at.hour as nat);
    law_two_digits_read_back(at.minute as nat);
    law_two_digits_read_back(at.second as nat);
    let s = clock_text(at.hour, at.minute, at.second);
    assert(s.subrange(0, 2) =~= two_digits(at.hour as nat));
    assert(s.subrange(3, 5) =~= two_digits(at.minute as nat));
    assert(s.subrange(6, 8) =~= two_digits(at.second as nat));
}

} // verus!
