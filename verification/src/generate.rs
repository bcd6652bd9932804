//! The generator of the evaluation data: ordinary log lines and injected anomalies.
//!
//! The lines come in blocks, one for each scenario. Whole numbers are drawn here. A line's size
//! and the time stamp of its local time come from the caller: the generator hands out a `Draft`
//! for the next line, and is given the time stamp and the size in return. The size has to be
//! drawn from the generator's own `rng` between the two calls.

use rand::rngs::StdRng;
use vstd::arithmetic::power2::{lemma_pow2_pos, pow2};
use vstd::prelude::*;

use crate::calendar::{
    in_calendar, later, law_moment_of_seconds, law_week, law_weekend_candidates,
    law_weekend_within_two_weeks, make_time, moment_at, weekend, weekend_backs, weekend_day_back,
    weekend_from, workday_from, workday_offset, Moment, Stamp, TimeError, DAYS_SPAN, FIRST_DAY,
    LAST_DAY,
};
use crate::counting::{count, lemma_count_range, lemma_count_same};
use crate::double::{lemma_order_key, Double};
use crate::draws::{
    draw_u32, draw_u8, draw_usize, drawn_u32, drawn_u8, drawn_usize, seeded, started,
};
use crate::order::{stable_sorting, taken};
use crate::record::{
    entries, law_sorting_goes_by_entries, law_sorting_keeps_lines, sort_logs, time_keys, Entry,
    LogRecord,
};

verus! {

/// The seed of the standard data set.
pub const SEED: u64 = 42;

/// The users of the standard data set.
pub const NUM_USERS: u32 = 5;

/// The ordinary lines of each user in the standard data set.
pub const NORMAL_PER_USER: usize = 95;

/// The bit pattern of 450.0, the upper end of the sizes in the clearance scenario.
pub const CLEARANCE_SIZE_HI: u64 = 0x407c_2000_0000_0000;

/// What a data set is made of.
#[derive(Clone, Copy, Debug, PartialEq, Eq, Structural)]
pub struct GenConfig {
    pub seed: u64,
    pub users: u32,
    pub normal_per_user: usize,
    /// Lines of large access at night.
    pub a: u32,
    /// Lines of the burst of downloads.
    pub b: u32,
    /// Lines of access above clearance.
    pub c: u32,
    /// Lines of huge downloads.
    pub d: u32,
    /// The lower end of the sizes in the clearance scenario.
    pub c_size_lo: Double,
    /// Whether the four scenarios follow that no parameter was tuned on.
    pub unknown: bool,
}

impl GenConfig {
    /// How many lines the scenario `tag` has.
    pub open spec fn block(self, tag: int) -> nat {
        if tag == 0 {
            (self.users * self.normal_per_user) as nat
        } else if tag == 1 {
            self.a as nat
        } else if tag == 2 {
            self.b as nat
        } else if tag == 3 {
            self.c as nat
        } else if tag == 4 {
            self.d as nat
        } else if !self.unknown {
            0
        } else if tag == 5 {
            15
        } else if tag == 6 {
            6
        } else if tag == 7 {
            40
        } else {
            self.users as nat
        }
    }

    /// The number of lines before the block of the scenario `tag`.
    pub open spec fn start(self, tag: int) -> nat
        decreases tag,
    {
        if tag <= 0 {
            0
        } else {
            self.start(tag - 1) + self.block(tag - 1)
        }
    }

    /// The number of lines.
    pub open spec fn total(self) -> nat {
        self.start(9)
    }

    /// The scenario of the line at an index.
    pub open spec fn tag_at(self, index: int) -> int {
        if index < self.start(1) {
            0
        } else if index < self.start(2) {
            1
        } else if index < self.start(3) {
            2
        } else if index < self.start(4) {
            3
        } else if index < self.start(5) {
            4
        } else if index < self.start(6) {
            5
        } else if index < self.start(7) {
            6
        } else if index < self.start(8) {
            7
        } else {
            8
        }
    }

    /// The configurations that a data set can be made of: there is a user, every number of
    /// lines and every offset in seconds fits its type, and the clearance scenario has sizes to
    /// draw from.
    pub open spec fn valid(self) -> bool {
        &&& self.users >= 1
        &&& self.total() <= usize::MAX
        &&& (self.b - 1) * 18 <= u32::MAX
        &&& self.c > 0 ==> (Double { bits: CLEARANCE_SIZE_HI }).above(self.c_size_lo)
    }

    /// Can a data set be made of this?
    pub fn is_valid(&self) -> (r: bool)
        ensures
            r == self.valid(),
    {
        proof {
            lemma_starts(*self);
            assert(self.users as int * self.normal_per_user as int <= 0xffff_ffff * usize::MAX
                && 0 <= self.users * self.normal_per_user) by (nonlinear_arith)
                requires
                    self.users <= 0xffff_ffff,
                    self.normal_per_user <= usize::MAX,
            ;
        }
        let known = self.a as u64 + self.b as u64 + self.c as u64 + self.d as u64;
        let unknown = if self.unknown { 61 + self.users as u128 } else { 0 };
        let total = self.users as u128 * self.normal_per_user as u128 + known as u128 + unknown;
        self.users >= 1 && total <= usize::MAX as u128 && (self.b == 0 || (self.b - 1) as u64 * 18
            <= u32::MAX as u64) && (self.c == 0 || (Double { bits: CLEARANCE_SIZE_HI }).gt(
            self.c_size_lo,
        ))
    }

    /// A data set can be made on this day: the burst of downloads ends within the calendar even
    /// if it falls on the day itself.
    pub open spec fn startable(self, today: int) -> bool {
        &&& self.valid()
        &&& in_calendar(today)
        &&& today * 86_400 + 51_000 + 18 * (self.b - 1) < (LAST_DAY + 1) * 86_400
    }

    /// Can a data set be made of this on the given day?
    pub fn is_startable(&self, today: i32) -> (r: bool)
        ensures
            r == self.startable(today as int),
    {
        self.is_valid() && FIRST_DAY <= today && today <= LAST_DAY && today as i64 * 86_400
            + 51_000 + 18 * (self.b as i64 - 1) < (LAST_DAY as i64 + 1) * 86_400
    }

    /// The standard data set: five users with 95 ordinary lines each, and 25 anomalies.
    pub fn default_() -> (r: GenConfig)
        ensures
            r == (GenConfig {
                seed: SEED,
                users: NUM_USERS,
                normal_per_user: NORMAL_PER_USER,
                a: 4,
                b: 12,
                c: 5,
                d: 4,
                c_size_lo: Double { bits: 0x4071_8000_0000_0000 },
                unknown: false,
            }),
    {
        GenConfig {
            seed: SEED,
            users: NUM_USERS,
            normal_per_user: NORMAL_PER_USER,
            a: 4,
            b: 12,
            c: 5,
            d: 4,
            c_size_lo: Double { bits: 0x4071_8000_0000_0000 },
            unknown: false,
        }
    }

    /// The number of injected anomalies.
    pub fn injected(&self) -> (r: usize)
        requires
            self.a + self.b + self.c + self.d <= u32::MAX,
            self.total() - self.block(0) <= usize::MAX,
        ensures
            r == self.total() - self.block(0),
    {
        proof {
            reveal_with_fuel(GenConfig::start, 10);
        }
        let known = (self.a + self.b + self.c + self.d) as usize;
        known + if self.unknown {
            15 + 6 + 40 + self.users as usize
        } else {
            0
        }
    }
}

/// How the size of a line is found.
#[derive(Clone, Copy, Debug, PartialEq, Eq, Structural)]
pub enum SizeDraw {
    /// Drawn log-normally around 100 KB.
    Usual,
    /// Drawn evenly from `lo` (included) to `hi` (excluded), in KB.
    Between { lo: Double, hi: Double },
    /// No draw: 110 KB and 60 KB more over forty steps.
    Ramp { step: u32 },
}

/// What is asked for the next line.
#[derive(Clone, Copy, Debug, PartialEq, Eq, Structural)]
pub struct Draft {
    pub moment: Moment,
    pub size: SizeDraw,
}

/// What is drawn once for a whole block.
#[derive(Clone, Copy, Debug, PartialEq, Eq, Structural)]
pub struct Shared {
    pub burst_user: u32,
    pub burst_day: i32,
    pub purge_day: i32,
    pub weekend_day: i32,
    pub collusion_day: i32,
}

/// How the size of line `k` of a scenario is found.
pub open spec fn size_plan(cfg: GenConfig, tag: int, k: int) -> SizeDraw {
    if tag == 0 {
        SizeDraw::Usual
    } else if tag == 1 {
        // 600.0 to 1600.0
        SizeDraw::Between {
            lo: Double { bits: 0x4082_c000_0000_0000 },
            hi: Double { bits: 0x4099_0000_0000_0000 },
        }
    } else if tag == 2 {
        // 350.0 to 700.0
        SizeDraw::Between {
            lo: Double { bits: 0x4075_e000_0000_0000 },
            hi: Double { bits: 0x4085_e000_0000_0000 },
        }
    } else if tag == 3 {
        SizeDraw::Between { lo: cfg.c_size_lo, hi: Double { bits: CLEARANCE_SIZE_HI } }
    } else if tag == 4 {
        // 1200.0 to 2500.0
        SizeDraw::Between {
            lo: Double { bits: 0x4092_c000_0000_0000 },
            hi: Double { bits: 0x40a3_8800_0000_0000 },
        }
    } else if tag == 5 {
        // 50.0 to 120.0
        SizeDraw::Between {
            lo: Double { bits: 0x4049_0000_0000_0000 },
            hi: Double { bits: 0x405e_0000_0000_0000 },
        }
    } else if tag == 6 {
        // 60.0 to 200.0
        SizeDraw::Between {
            lo: Double { bits: 0x404e_0000_0000_0000 },
            hi: Double { bits: 0x4069_0000_0000_0000 },
        }
    } else if tag == 7 {
        SizeDraw::Ramp { step: k as u32 }
    } else {
        // 180.0 to 250.0
        SizeDraw::Between {
            lo: Double { bits: 0x4066_8000_0000_0000 },
            hi: Double { bits: 0x406f_4000_0000_0000 },
        }
    }
}

/// Is this a size of the kind that was asked for? A size drawn log-normally is positive, one from
/// a range lies in it, and step `k` of the creep has 110 + 60 * k / 40 kilobytes. (The smallest
/// positive double is 2 to the power of -1074.)
pub open spec fn size_fits(plan: SizeDraw, size: Double) -> bool {
    match plan {
        SizeDraw::Usual => !size.nan() && size.value() > 0,
        SizeDraw::Between { lo, hi } => size.at_least(lo) && hi.above(size),
        SizeDraw::Ramp { step } => !size.nan() && 2 * size.value() == (220 + 3 * step) * pow2(1074),
    }
}

/// Every line has a size of the kind that was asked for.
pub open spec fn sized(cfg: GenConfig, lines: Seq<LogRecord>) -> bool {
    forall|i: int|
        0 <= i < lines.len() ==> size_fits(
            size_plan(cfg, cfg.tag_at(i), i - cfg.start(cfg.tag_at(i))),
            (#[trigger] lines[i]).file_size_kb,
        )
}

fn size_plan_of(cfg: &GenConfig, tag: u8, k: usize) -> (r: SizeDraw)
    requires
        tag <= 8,
        tag == 7 ==> k < 40,
    ensures
        r == size_plan(*cfg, tag as int, k as int),
{
    if tag == 0 {
        SizeDraw::Usual
    } else if tag == 1 {
        SizeDraw::Between {
            lo: Double { bits: 0x4082_c000_0000_0000 },
            hi: Double { bits: 0x4099_0000_0000_0000 },
        }
    } else if tag == 2 {
        SizeDraw::Between {
            lo: Double { bits: 0x4075_e000_0000_0000 },
            hi: Double { bits: 0x4085_e000_0000_0000 },
        }
    } else if tag == 3 {
        SizeDraw::Between { lo: cfg.c_size_lo, hi: Double { bits: CLEARANCE_SIZE_HI } }
    } else if tag == 4 {
        SizeDraw::Between {
            lo: Double { bits: 0x4092_c000_0000_0000 },
            hi: Double { bits: 0x40a3_8800_0000_0000 },
        }
    } else if tag == 5 {
        SizeDraw::Between {
            lo: Double { bits: 0x4049_0000_0000_0000 },
            hi: Double { bits: 0x405e_0000_0000_0000 },
        }
    } else if tag == 6 {
        SizeDraw::Between {
            lo: Double { bits: 0x404e_0000_0000_0000 },
            hi: Double { bits: 0x4069_0000_0000_0000 },
        }
    } else if tag == 7 {
        SizeDraw::Ramp { step: k as u32 }
    } else {
        SizeDraw::Between {
            lo: Double { bits: 0x4066_8000_0000_0000 },
            hi: Double { bits: 0x406f_4000_0000_0000 },
        }
    }
}

/// How many days back a line of the slow creep lies that `j` others of the forty follow. The creep
/// takes ninety days. (In double precision 28 / 40 * 90 falls just short of 63.)
pub open spec fn creep_back(j: int) -> int {
    if j == 28 {
        62
    } else {
        j * 9 / 4
    }
}

/// A workday of the last seven days.
pub open spec fn work_day(today: int, day: int) -> bool {
    in_calendar(day) && 0 <= today - day < DAYS_SPAN && !weekend(day)
}

/// The user of line `k` of a scenario.
pub open spec fn owner(cfg: GenConfig, shared: Shared, tag: int, k: int) -> int {
    if tag == 0 {
        1 + k / cfg.normal_per_user as int
    } else if tag == 2 {
        shared.burst_user as int
    } else if tag == 5 {
        cfg.users as int
    } else if tag == 6 {
        if cfg.users >= 2 {
            cfg.users - 1
        } else {
            1
        }
    } else if tag == 7 {
        1
    } else if tag == 8 {
        1 + k
    } else {
        1 + k % cfg.users as int
    }
}

/// The moments that line `k` of a scenario may have.
pub open spec fn moment_fits(today: int, shared: Shared, tag: int, k: int, at: Moment) -> bool {
    &&& at.valid()
    &&& if tag == 0 || tag == 3 || tag == 4 {
        work_day(today, at.day as int) && 9 <= at.hour < 18
    } else if tag == 1 {
        work_day(today, at.day as int) && 0 <= at.hour < 6
    } else if tag == 2 {
        at.seconds() == shared.burst_day * 86_400 + 51_000 + 18 * k
    } else if tag == 5 {
        at.seconds() == shared.purge_day * 86_400 + 36_000 + 18 * k
    } else if tag == 6 {
        at.day == shared.weekend_day && 10 <= at.hour < 17
    } else if tag == 7 {
        at.day == today - creep_back(39 - k) && 9 <= at.hour < 18
    } else {
        at.day == shared.collusion_day && 11 <= at.hour < 13
    }
}

/// The operations that a line of a scenario may have.
pub open spec fn operation_fits(tag: int, op: Seq<char>) -> bool {
    if tag == 0 {
        op == "view"@ || op == "download"@ || op == "edit"@
    } else if tag == 5 {
        op == "delete"@
    } else if tag == 6 {
        op == "view"@ || op == "edit"@
    } else {
        op == "download"@
    }
}

/// The sensitivity levels that a line of a scenario may have.
pub open spec fn sensitivity_fits(tag: int, level: int) -> bool {
    if tag == 3 {
        level == 5
    } else if tag == 1 || tag == 4 {
        level == 2
    } else {
        1 <= level <= 2
    }
}

/// Can this be the line at an index?
pub open spec fn fits(
    cfg: GenConfig,
    today: int,
    shared: Shared,
    index: int,
    line: LogRecord,
) -> bool {
    let tag = cfg.tag_at(index);
    let k = index - cfg.start(tag);
    &&& line.scenario_tag == tag
    &&& line.is_anomaly == (tag != 0)
    &&& line.user_id == owner(cfg, shared, tag, k)
    &&& moment_fits(today, shared, tag, k, line.timestamp.moment())
    &&& operation_fits(tag, line.operation@)
    &&& sensitivity_fits(tag, line.sensitivity as int)
}

/// What may be drawn for the blocks that have been entered: the first `ready` of the burst, the
/// deletions, the weekend and the collusion.
pub open spec fn shared_fits(cfg: GenConfig, today: int, shared: Shared, ready: int) -> bool {
    &&& ready >= 1 ==> 1 <= shared.burst_user <= cfg.users && work_day(
        today,
        shared.burst_day as int,
    )
    &&& ready >= 2 ==> work_day(today, shared.purge_day as int)
    &&& ready >= 3 ==> {
        &&& in_calendar(shared.weekend_day as int)
        &&& 1 <= today - shared.weekend_day < 14
        &&& weekend(shared.weekend_day as int)
    }
    &&& ready >= 4 ==> work_day(today, shared.collusion_day as int)
}

/// The line at an index asks for a day before the calendar begins: a weekend day, or a day of the
/// slow creep.
pub open spec fn day_missing(cfg: GenConfig, today: int, index: int) -> bool {
    let tag = cfg.tag_at(index);
    &&& index < cfg.total()
    &&& {
        ||| tag == 6 && weekend_backs(today, 14).len() == 0
        ||| tag == 7 && !in_calendar(today - creep_back(39 - (index - cfg.start(tag))))
    }
}

/// How many blocks with a draw of their own a data set has.
pub open spec fn entered(cfg: GenConfig) -> int {
    if cfg.unknown {
        4
    } else {
        1
    }
}

/// The lines of a complete data set, in the order in which they were made.
pub open spec fn data_set(cfg: GenConfig, today: int, lines: Seq<LogRecord>) -> bool {
    &&& lines.len() == cfg.total()
    &&& exists|shared: Shared|
        {
            &&& #[trigger] shared_fits(cfg, today, shared, entered(cfg))
            &&& forall|i: int|
                0 <= i < lines.len() ==> fits(cfg, today, shared, i, #[trigger] lines[i])
        }
}

proof fn lemma_starts(cfg: GenConfig)
    ensures
        cfg.start(0) == 0,
        cfg.start(1) == cfg.block(0),
        cfg.start(2) == cfg.start(1) + cfg.block(1),
        cfg.start(3) == cfg.start(2) + cfg.block(2),
        cfg.start(4) == cfg.start(3) + cfg.block(3),
        cfg.start(5) == cfg.start(4) + cfg.block(4),
        cfg.start(6) == cfg.start(5) + cfg.block(5),
        cfg.start(7) == cfg.start(6) + cfg.block(6),
        cfg.start(8) == cfg.start(7) + cfg.block(7),
        cfg.start(9) == cfg.start(8) + cfg.block(8),
{
    assert(cfg.start(0) == 0);
    assert(cfg.start(1) == cfg.start(0) + cfg.block(0));
}

proof fn lemma_user_in_range(k: int, users: int, each: int)
    requires
        0 <= k < users * each,
        users >= 0,
        each >= 0,
    ensures
        0 <= k / each < users,
{
    assert(each > 0) by (nonlinear_arith)
        requires
            0 <= k < users * each,
            users >= 0,
            each >= 0,
    ;
    assert(k / each < users) by (nonlinear_arith)
        requires
            k < users * each,
            each > 0,
    ;
    assert(k / each >= 0) by (nonlinear_arith)
        requires
            k >= 0,
            each > 0,
    ;
}

/// What is settled of a line before its size is known. The code of the operation (0 view,
/// 1 download, 2 edit, 3 delete) counts for weekend access only.
#[derive(Clone, Copy, Debug, PartialEq, Eq, Structural)]
pub struct Pending {
    pub user_id: u32,
    pub moment: Moment,
    pub tag: u8,
    pub op: u8,
}

/// How far a data set has come.
#[verifier::ext_equal]
pub struct Progress {
    /// The generator of all draws.
    pub source: StdRng,
    pub cfg: GenConfig,
    pub today: int,
    /// What was drawn for whole blocks.
    pub shared: Shared,
    /// How many blocks with a draw of their own have been entered.
    pub ready: int,
    /// What the lines made so far say.
    pub lines: Seq<Entry>,
    /// The line that waits for its time stamp and size.
    pub waiting: Option<Pending>,
}

/// A data set of which nothing is made.
pub open spec fn begun(cfg: GenConfig, today: int) -> Progress {
    Progress {
        source: started(cfg.seed),
        cfg,
        today,
        shared: Shared {
            burst_user: 0,
            burst_day: 0,
            purge_day: 0,
            weekend_day: 0,
            collusion_day: 0,
        },
        ready: 0,
        lines: Seq::empty(),
        waiting: None,
    }
}

/// The block of the burst is entered where it begins: its user and its day are drawn.
pub open spec fn with_burst(p: Progress) -> Progress {
    if p.ready == 0 && p.lines.len() == p.cfg.start(2) {
        let (user, next) = drawn_u32(p.source, 0, p.cfg.users);
        let (back, source) = workday_from(next, p.today, 0);
        Progress {
            source,
            shared: Shared {
                burst_user: (1 + user) as u32,
                burst_day: (p.today - back) as i32,
                ..p.shared
            },
            ready: 1,
            ..p
        }
    } else {
        p
    }
}

/// The block of the deletions is entered where it begins: its day is drawn.
pub open spec fn with_purge(p: Progress) -> Progress {
    if p.cfg.unknown && p.ready == 1 && p.lines.len() == p.cfg.start(5) {
        let (back, source) = workday_from(p.source, p.today, 0);
        Progress {
            source,
            shared: Shared { purge_day: (p.today - back) as i32, ..p.shared },
            ready: 2,
            ..p
        }
    } else {
        p
    }
}

/// The block of the weekend access is entered where it begins, if the day that is drawn lies in
/// the calendar.
pub open spec fn with_weekend(p: Progress) -> Progress {
    if p.cfg.unknown && p.ready == 2 && p.lines.len() == p.cfg.start(6) {
        let (back, source) = weekend_from(p.source, p.today);
        if in_calendar(p.today - back) {
            Progress {
                source,
                shared: Shared { weekend_day: (p.today - back) as i32, ..p.shared },
                ready: 3,
                ..p
            }
        } else {
            Progress { source, ..p }
        }
    } else {
        p
    }
}

/// The block of the collusion is entered where it begins: its day is drawn.
pub open spec fn with_collusion(p: Progress) -> Progress {
    if p.cfg.unknown && p.ready == 3 && p.lines.len() == p.cfg.start(8) {
        let (back, source) = workday_from(p.source, p.today, 0);
        Progress {
            source,
            shared: Shared { collusion_day: (p.today - back) as i32, ..p.shared },
            ready: 4,
            ..p
        }
    } else {
        p
    }
}

/// The blocks that begin here are entered.
pub open spec fn with_blocks(p: Progress) -> Progress {
    with_collusion(with_weekend(with_purge(with_burst(p))))
}

/// A weekend day was needed, and the calendar has none.
pub open spec fn without_weekend(p: Progress) -> bool {
    p.cfg.unknown && p.ready == 2 && p.lines.len() == p.cfg.start(6)
}

/// A moment of a day at an hour from `lo` to below `hi`, drawn from a generator, and the generator
/// that the draws leave behind.
pub open spec fn moment_from(source: StdRng, day: int, lo: u32, hi: u32) -> (Moment, StdRng) {
    let (hour, after_hour) = drawn_u32(source, lo, hi);
    let (minute, after_minute) = drawn_u32(after_hour, 0, 60);
    let (second, next) = drawn_u32(after_minute, 0, 60);
    (Moment { day: day as i32, hour, minute, second }, next)
}

/// The hours between which the lines of a scenario lie.
pub open spec fn hours(tag: int) -> (u32, u32) {
    if tag == 1 {
        (0, 6)
    } else if tag == 6 {
        (10, 17)
    } else if tag == 8 {
        (11, 13)
    } else {
        (9, 18)
    }
}

/// How many days back a line of a scenario lies that has no fixed moment, and the generator after
/// the draws for it.
pub open spec fn back_from(p: Progress, tag: int, k: int) -> (int, StdRng) {
    if tag == 6 {
        (p.today - p.shared.weekend_day, p.source)
    } else if tag == 7 {
        (creep_back(39 - k), p.source)
    } else if tag == 8 {
        (p.today - p.shared.collusion_day, p.source)
    } else {
        let (back, next) = workday_from(p.source, p.today, 0);
        (back as int, next)
    }
}

/// The moment of line `k` of a scenario and the code of its operation, unless the day lies before
/// the calendar begins; and the generator after the draws for them.
pub open spec fn line_from(p: Progress, tag: int, k: int) -> (Option<(Moment, u8)>, StdRng) {
    if tag == 2 {
        (Some((moment_at(p.shared.burst_day * 86_400 + 51_000 + 18 * k), 1u8)), p.source)
    } else if tag == 5 {
        (Some((moment_at(p.shared.purge_day * 86_400 + 36_000 + 18 * k), 1u8)), p.source)
    } else {
        let (back, next) = back_from(p, tag, k);
        let (moment, source) = moment_from(next, p.today - back, hours(tag).0, hours(tag).1);
        if !in_calendar(p.today - back) {
            (None, source)
        } else if tag == 6 {
            let (edit, last) = drawn_usize(source, 0, 2, usize::BITS);
            (Some((moment, if edit == 0 { 0u8 } else { 2u8 })), last)
        } else {
            (Some((moment, 1u8)), source)
        }
    }
}

/// What `next_draft` answers, and how far the data set is then.
pub open spec fn next_of(p: Progress) -> (Result<Option<Draft>, TimeError>, Progress) {
    let q = with_blocks(p);
    let n = q.lines.len() as int;
    let tag = q.cfg.tag_at(n);
    let k = n - q.cfg.start(tag);
    if without_weekend(q) {
        (Err(TimeError::DayUnderflow), q)
    } else if n == q.cfg.total() {
        (Ok(None), q)
    } else {
        let (line, source) = line_from(q, tag, k);
        match line {
            None => (Err(TimeError::DayUnderflow), Progress { source, ..q }),
            Some((moment, op)) => {
                let user_id = owner(q.cfg, q.shared, tag, k) as u32;
                let waiting = Some(Pending { user_id, moment, tag: tag as u8, op });
                let draft = Draft { moment, size: size_plan(q.cfg, tag, k) };
                (Ok(Some(draft)), Progress { source, waiting, ..q })
            },
        }
    }
}

/// The operation with a code.
pub open spec fn operation_of(code: int) -> Seq<char> {
    if code == 0 {
        "view"@
    } else if code == 1 {
        "download"@
    } else if code == 2 {
        "edit"@
    } else {
        "delete"@
    }
}

/// The code of the operation of a line, and the generator after the draw for it.
pub open spec fn code_from(source: StdRng, line: Pending) -> (int, StdRng) {
    if line.tag == 0 {
        let (code, next) = drawn_usize(source, 0, 3, usize::BITS);
        (code as int, next)
    } else if line.tag == 5 {
        (3, source)
    } else if line.tag == 6 {
        (line.op as int, source)
    } else {
        (1, source)
    }
}

/// The sensitivity level of a line, and the generator after the draw for it.
pub open spec fn level_from(source: StdRng, line: Pending) -> (u8, StdRng) {
    if line.tag == 3 {
        (5, source)
    } else if line.tag == 1 || line.tag == 4 {
        (2, source)
    } else {
        drawn_u8(source, 1, 2)
    }
}

/// How far the data set is once the line that waits has its time stamp and its size.
pub open spec fn accepted(p: Progress, epoch: i64, size: Double) -> Progress {
    let line = p.waiting->0;
    let (code, next) = code_from(p.source, line);
    let (sensitivity, source) = level_from(next, line);
    let made = Entry {
        user_id: line.user_id,
        timestamp: Stamp {
            epoch,
            day: line.moment.day,
            hour: line.moment.hour,
            minute: line.moment.minute,
            second: line.moment.second,
        },
        operation: operation_of(code),
        file_size_kb: size,
        sensitivity,
        is_anomaly: line.tag != 0,
        scenario_tag: line.tag,
    };
    Progress { source, lines: p.lines.push(made), waiting: None, ..p }
}

spec fn pending_fits(
    cfg: GenConfig,
    today: int,
    shared: Shared,
    index: int,
    line: Pending,
) -> bool {
    let tag = cfg.tag_at(index);
    let k = index - cfg.start(tag);
    &&& line.tag == tag
    &&& line.user_id == owner(cfg, shared, tag, k)
    &&& moment_fits(today, shared, tag, k, line.moment)
    &&& tag == 6 ==> line.op == 0 || line.op == 2
}

/// A data set in the making.
pub struct Generator {
    /// The source of all draws. Between a draft and its acceptance the size is drawn from it.
    pub rng: StdRng,
    cfg: GenConfig,
    today: i32,
    shared: Shared,
    ready: u8,
    lines: Vec<LogRecord>,
    pending: Option<Pending>,
}

impl Generator {
    pub closed spec fn config(&self) -> GenConfig {
        self.cfg
    }

    pub closed spec fn day(&self) -> int {
        self.today as int
    }

    /// The lines made so far.
    pub closed spec fn made(&self) -> Seq<LogRecord> {
        self.lines@
    }

    /// The source of all draws.
    pub closed spec fn source(&self) -> StdRng {
        self.rng
    }

    /// How far the data set has come.
    pub closed spec fn progress(&self) -> Progress {
        Progress {
            source: self.rng,
            cfg: self.cfg,
            today: self.today as int,
            shared: self.shared,
            ready: self.ready as int,
            lines: entries(self.lines@),
            waiting: self.pending,
        }
    }

    /// What was drawn for whole blocks so far.
    pub closed spec fn drawn(&self) -> Shared {
        self.shared
    }

    /// The moment of the line that waits for its time stamp and size.
    pub closed spec fn waiting(&self) -> Option<Moment> {
        match self.pending {
            Some(line) => Some(line.moment),
            None => None,
        }
    }

    /// All lines are made.
    pub closed spec fn complete(&self) -> bool {
        self.lines@.len() == self.cfg.total() && self.ready == entered(self.cfg)
            && self.pending is None
    }

    spec fn block_entered(&self, tag: int) -> bool {
        &&& tag >= 2 ==> self.ready >= 1
        &&& tag >= 5 ==> self.ready >= 2
        &&& tag >= 6 ==> self.ready >= 3
        &&& tag >= 8 ==> self.ready >= 4
    }

    pub closed spec fn inv(&self) -> bool {
        let n = self.lines@.len();
        &&& self.cfg.startable(self.today as int)
        &&& n <= self.cfg.total()
        &&& self.ready <= entered(self.cfg)
        &&& shared_fits(self.cfg, self.today as int, self.shared, self.ready as int)
        &&& n > self.cfg.start(2) ==> self.ready >= 1
        &&& n > self.cfg.start(5) ==> self.ready >= 2
        &&& n > self.cfg.start(6) ==> self.ready >= 3
        &&& n > self.cfg.start(8) ==> self.ready >= 4
        &&& self.ready >= 1 ==> n >= self.cfg.start(2)
        &&& self.ready >= 2 ==> n >= self.cfg.start(5)
        &&& self.ready >= 3 ==> n >= self.cfg.start(6)
        &&& self.ready >= 4 ==> n >= self.cfg.start(8)
        &&& forall|i: int|
            0 <= i < n ==> fits(
                self.cfg,
                self.today as int,
                self.shared,
                i,
                #[trigger] self.lines@[i],
            )
        &&& self.pending matches Some(line) ==> {
            &&& n < self.cfg.total()
            &&& pending_fits(self.cfg, self.today as int, self.shared, n as int, line)
            &&& self.block_entered(self.cfg.tag_at(n as int))
        }
    }

    /// Starts a data set on the given day.
    pub fn new(cfg: &GenConfig, today: i32) -> (r: Generator)
        requires
            cfg.startable(today as int),
        ensures
            r.inv(),
            r.progress() == begun(*cfg, today as int),
            r.config() == *cfg,
            r.day() == today,
            r.made() == Seq::<LogRecord>::empty(),
            r.waiting() is None,
            r.source() == started(cfg.seed),
    {
        let r = Generator {
            rng: seeded(cfg.seed),
            cfg: *cfg,
            today,
            shared: Shared {
                burst_user: 0,
                burst_day: 0,
                purge_day: 0,
                weekend_day: 0,
                collusion_day: 0,
            },
            ready: 0,
            lines: Vec::new(),
            pending: None,
        };
        assert(r.progress().lines =~= Seq::empty());
        r
    }
}

/// The scenario and the place in its block of the line at an index.
fn locate(cfg: &GenConfig, index: usize) -> (r: (u8, usize))
    requires
        cfg.valid(),
        index < cfg.total(),
    ensures
        r.0 == cfg.tag_at(index as int),
        r.1 == index - cfg.start(cfg.tag_at(index as int)),
        r.1 < cfg.block(r.0 as int),
{
    proof {
        lemma_starts(*cfg);
    }
    let ordinary: usize = cfg.users as usize * cfg.normal_per_user;
    if index < ordinary {
        return (0, index);
    }
    let k = index - ordinary;
    if k < cfg.a as usize {
        return (1, k);
    }
    let k = k - cfg.a as usize;
    if k < cfg.b as usize {
        return (2, k);
    }
    let k = k - cfg.b as usize;
    if k < cfg.c as usize {
        return (3, k);
    }
    let k = k - cfg.c as usize;
    if k < cfg.d as usize {
        return (4, k);
    }
    let k = k - cfg.d as usize;
    if k < 15 {
        return (5, k);
    }
    let k = k - 15;
    if k < 6 {
        return (6, k);
    }
    let k = k - 6;
    if k < 40 {
        return (7, k);
    }
    (8, k - 40)
}

/// The number of lines before a block.
fn start_of(cfg: &GenConfig, tag: u8) -> (r: usize)
    requires
        cfg.valid(),
        tag == 2 || tag == 5 || tag == 6 || tag == 8,
    ensures
        r == cfg.start(tag as int),
{
    proof {
        lemma_starts(*cfg);
    }
    let burst: usize = cfg.users as usize * cfg.normal_per_user + cfg.a as usize;
    if tag == 2 {
        return burst;
    }
    let purge = burst + cfg.b as usize + cfg.c as usize + cfg.d as usize;
    if tag == 5 || !cfg.unknown {
        purge
    } else if tag == 6 {
        purge + 15
    } else {
        purge + 61
    }
}

impl Generator {
    /// Nothing but draws sets the two apart.
    spec fn same_lines(&self, other: &Generator) -> bool {
        &&& self.cfg == other.cfg
        &&& self.today == other.today
        &&& self.lines@ == other.lines@
    }

    /// Makes the draws of the block that begins here, if one does.
    fn enter_block(&mut self) -> (r: Result<(), TimeError>)
        requires
            old(self).inv(),
            old(self).pending is None,
        ensures
            final(self).inv(),
            final(self).same_lines(old(self)),
            final(self).pending is None,
            final(self).progress() == with_blocks(old(self).progress()),
            r is Err <==> without_weekend(final(self).progress()),
            r is Err <==> {
                &&& old(self).ready == 2
                &&& old(self).lines@.len() == old(self).cfg.start(6)
                &&& old(self).cfg.unknown
                &&& weekend_backs(old(self).today as int, 14).len() == 0
            },
            r is Err ==> r->Err_0 == TimeError::DayUnderflow,
            r is Ok && old(self).lines@.len() < old(self).cfg.total()
                ==> final(self).block_entered(
                old(self).cfg.tag_at(old(self).lines@.len() as int),
            ),
            r is Ok && old(self).lines@.len() == old(self).cfg.total() ==> final(self).ready
                == entered(old(self).cfg),
    {
        proof {
            lemma_starts(self.cfg);
        }
        let n = self.lines.len();
        if self.ready == 0 && n == start_of(&self.cfg, 2) {
            let user = 1 + draw_u32(&mut self.rng, 0, self.cfg.users);
            let back = workday_offset(&mut self.rng, self.today);
            let base = match make_time(self.today, back, 14, 10, 0) {
                Ok(base) => base,
                Err(e) => {
                    return Err(e);
                },
            };
            self.shared.burst_user = user;
            self.shared.burst_day = base.day;
            self.ready = 1;
        }
        if self.cfg.unknown {
            if self.ready == 1 && n == start_of(&self.cfg, 5) {
                let back = workday_offset(&mut self.rng, self.today);
                let base = match make_time(self.today, back, 10, 0, 0) {
                    Ok(base) => base,
                    Err(e) => {
                        return Err(e);
                    },
                };
                self.shared.purge_day = base.day;
                self.ready = 2;
            }
            if self.ready == 2 && n == start_of(&self.cfg, 6) {
                let back = weekend_day_back(&mut self.rng, self.today);
                proof {
                    if in_calendar(self.today - 6) {
                        law_weekend_within_two_weeks(self.today as int);
                    }
                    law_weekend_candidates(self.today as int, back);
                }
                let base = match make_time(self.today, back, 10, 0, 0) {
                    Ok(base) => base,
                    Err(e) => {
                        return Err(e);
                    },
                };
                self.shared.weekend_day = base.day;
                self.ready = 3;
            }
            if self.ready == 3 && n == start_of(&self.cfg, 8) {
                let back = workday_offset(&mut self.rng, self.today);
                let base = match make_time(self.today, back, 11, 0, 0) {
                    Ok(base) => base,
                    Err(e) => {
                        return Err(e);
                    },
                };
                self.shared.collusion_day = base.day;
                self.ready = 4;
            }
        }
        Ok(())
    }

    /// A moment `back` days ago, at an hour from `lo` to below `hi`, the minute and the second
    /// left to chance.
    fn draw_moment(&mut self, back: u64, lo: u32, hi: u32) -> (r: Result<Moment, TimeError>)
        requires
            old(self).inv(),
            old(self).pending is None,
            lo < hi <= 24,
        ensures
            final(self).inv(),
            final(self).same_lines(old(self)),
            final(self).shared == old(self).shared,
            final(self).ready == old(self).ready,
            final(self).pending is None,
            ({
                let (moment, next) = moment_from(old(self).rng, old(self).today - back, lo, hi);
                &&& final(self).rng == next
                &&& r is Ok ==> r->Ok_0 == moment
            }),
            r is Ok <==> in_calendar(old(self).today - back),
            r is Ok ==> r->Ok_0.valid() && r->Ok_0.day == old(self).today - back && lo
                <= r->Ok_0.hour < hi,
            r is Err ==> r->Err_0 == TimeError::DayUnderflow,
    {
        let hour = draw_u32(&mut self.rng, lo, hi);
        let minute = draw_u32(&mut self.rng, 0, 60);
        let second = draw_u32(&mut self.rng, 0, 60);
        make_time(self.today, back, hour, minute, second)
    }

    /// The moment of a line, and the code of its operation if that is settled by now.
    fn draw_line(&mut self, tag: u8, k: usize) -> (r: Result<(Moment, u8), TimeError>)
        requires
            old(self).inv(),
            old(self).pending is None,
            tag <= 8,
            k < old(self).cfg.block(tag as int),
            old(self).block_entered(tag as int),
        ensures
            final(self).inv(),
            final(self).same_lines(old(self)),
            final(self).shared == old(self).shared,
            final(self).ready == old(self).ready,
            final(self).pending is None,
            ({
                let (line, next) = line_from(old(self).progress(), tag as int, k as int);
                &&& final(self).rng == next
                &&& line is Some <==> r is Ok
                &&& r is Ok ==> r->Ok_0 == line->0
            }),
            r is Ok ==> moment_fits(
                old(self).today as int,
                old(self).shared,
                tag as int,
                k as int,
                r->Ok_0.0,
            ),
            r is Ok && tag == 6 ==> r->Ok_0.1 == 0 || r->Ok_0.1 == 2,
            r is Err <==> tag == 7 && !in_calendar(old(self).today - creep_back(39 - k)),
            r is Err ==> r->Err_0 == TimeError::DayUnderflow,
    {
        let mut op: u8 = 1;
        let moment = if tag == 0 || tag == 3 || tag == 4 {
            let back = workday_offset(&mut self.rng, self.today);
            match self.draw_moment(back, 9, 18) {
                Ok(moment) => moment,
                Err(e) => {
                    return Err(e);
                },
            }
        } else if tag == 1 {
            let back = workday_offset(&mut self.rng, self.today);
            match self.draw_moment(back, 0, 6) {
                Ok(moment) => moment,
                Err(e) => {
                    return Err(e);
                },
            }
        } else if tag == 2 {
            let base = Moment { day: self.shared.burst_day, hour: 14, minute: 10, second: 0 };
            let moment = later(base, k as u32 * 18);
            proof {
                law_moment_of_seconds(moment);
            }
            moment
        } else if tag == 5 {
            let base = Moment { day: self.shared.purge_day, hour: 10, minute: 0, second: 0 };
            let moment = later(base, k as u32 * 18);
            proof {
                law_moment_of_seconds(moment);
            }
            moment
        } else if tag == 6 {
            let back = (self.today - self.shared.weekend_day) as u64;
            let moment = match self.draw_moment(back, 10, 17) {
                Ok(moment) => moment,
                Err(e) => {
                    return Err(e);
                },
            };
            op = if draw_usize(&mut self.rng, 0, 2) == 0 { 0 } else { 2 };
            moment
        } else if tag == 7 {
            let j = 39 - k;
            let back: u64 = if j == 28 { 62 } else { (j * 9 / 4) as u64 };
            match self.draw_moment(back, 9, 18) {
                Ok(moment) => moment,
                Err(e) => {
                    return Err(e);
                },
            }
        } else {
            let back = (self.today - self.shared.collusion_day) as u64;
            match self.draw_moment(back, 11, 13) {
                Ok(moment) => moment,
                Err(e) => {
                    return Err(e);
                },
            }
        };
        Ok((moment, op))
    }

    /// The user of a line.
    fn owner_of(&self, tag: u8, k: usize) -> (r: u32)
        requires
            self.inv(),
            tag <= 8,
            k < self.cfg.block(tag as int),
        ensures
            r == owner(self.cfg, self.shared, tag as int, k as int),
    {
        proof {
            if tag == 0 {
                lemma_user_in_range(
                    k as int,
                    self.cfg.users as int,
                    self.cfg.normal_per_user as int,
                );
            }
        }
        if tag == 0 {
            1 + (k / self.cfg.normal_per_user) as u32
        } else if tag == 2 {
            self.shared.burst_user
        } else if tag == 5 {
            self.cfg.users
        } else if tag == 6 {
            if self.cfg.users >= 2 {
                self.cfg.users - 1
            } else {
                1
            }
        } else if tag == 7 {
            1
        } else if tag == 8 {
            1 + k as u32
        } else {
            1 + (k as u32 % self.cfg.users)
        }
    }

    /// The next line to be made, or `None` if the data set is complete. The only failure is a
    /// day before the calendar begins.
    pub fn next_draft(&mut self) -> (r: Result<Option<Draft>, TimeError>)
        requires
            old(self).inv(),
            old(self).waiting() is None,
        ensures
            final(self).inv(),
            (r, final(self).progress()) == next_of(old(self).progress()),
            final(self).config() == old(self).config(),
            final(self).day() == old(self).day(),
            final(self).made() == old(self).made(),
            r is Err <==> day_missing(
                old(self).config(),
                old(self).day(),
                old(self).made().len() as int,
            ),
            r is Err ==> r->Err_0 == TimeError::DayUnderflow && final(self).waiting() is None,
            r is Ok ==> {
                let cfg = old(self).config();
                let n = old(self).made().len() as int;
                &&& r->Ok_0 is None <==> n == cfg.total()
                &&& r->Ok_0 is None ==> final(self).complete() && final(self).waiting() is None
                &&& r->Ok_0 matches Some(draft) ==> {
                    &&& final(self).waiting() == Some(draft.moment)
                    &&& moment_fits(
                        old(self).day(),
                        final(self).drawn(),
                        cfg.tag_at(n),
                        n - cfg.start(cfg.tag_at(n)),
                        draft.moment,
                    )
                    &&& draft.size == size_plan(
                        cfg,
                        cfg.tag_at(n),
                        n - cfg.start(cfg.tag_at(n)),
                    )
                }
            },
    {
        proof {
            lemma_starts(self.cfg);
            if self.ready >= 3 {
                let back = (self.today - self.shared.weekend_day) as u64;
                law_weekend_candidates(self.today as int, back);
            }
        }
        match self.enter_block() {
            Ok(_) => {},
            Err(e) => {
                return Err(e);
            },
        }
        proof {
            lemma_starts(self.cfg);
        }
        let n = self.lines.len();
        if n == start_of(&self.cfg, 5) + self.unknown_lines() {
            return Ok(None);
        }
        let (tag, k) = locate(&self.cfg, n);
        let (moment, op) = match self.draw_line(tag, k) {
            Ok(drawn) => drawn,
            Err(e) => {
                return Err(e);
            },
        };
        let user_id = self.owner_of(tag, k);
        self.pending = Some(Pending { user_id, moment, tag, op });
        Ok(Some(Draft { moment, size: size_plan_of(&self.cfg, tag, k) }))
    }

    /// The number of lines of the scenarios that nothing was tuned on.
    fn unknown_lines(&self) -> (r: usize)
        requires
            self.inv(),
        ensures
            r == self.cfg.total() - self.cfg.start(5),
    {
        proof {
            lemma_starts(self.cfg);
        }
        if self.cfg.unknown {
            61 + self.cfg.users as usize
        } else {
            0
        }
    }

    /// Makes the line that was drafted, with the time stamp of its moment and its size.
    pub fn accept(&mut self, epoch: i64, size: Double)
        requires
            old(self).inv(),
            old(self).waiting() is Some,
        ensures
            final(self).inv(),
            final(self).progress() == accepted(old(self).progress(), epoch, size),
            final(self).config() == old(self).config(),
            final(self).day() == old(self).day(),
            final(self).waiting() is None,
            final(self).made().len() == old(self).made().len() + 1,
            final(self).made().drop_last() == old(self).made(),
            final(self).made().last().timestamp.epoch == epoch,
            Some(final(self).made().last().timestamp.moment()) == old(self).waiting(),
            final(self).made().last().file_size_kb == size,
            final(self).drawn() == old(self).drawn(),
            fits(
                old(self).config(),
                old(self).day(),
                old(self).drawn(),
                old(self).made().len() as int,
                final(self).made().last(),
            ),
            ({
                let cfg = old(self).config();
                let n = old(self).made().len() as int;
                let plan = size_plan(cfg, cfg.tag_at(n), n - cfg.start(cfg.tag_at(n)));
                sized(cfg, old(self).made()) && size_fits(plan, size) ==> sized(
                    cfg,
                    final(self).made(),
                )
            }),
    {
        proof {
            lemma_starts(self.cfg);
        }
        let ghost n = self.lines@.len();
        if let Some(line) = self.pending.take() {
            let mut op = line.op;
            if line.tag == 0 {
                op = draw_usize(&mut self.rng, 0, 3) as u8;
            } else if line.tag == 5 {
                op = 3;
            } else if line.tag != 6 {
                op = 1;
            }
            let operation = if op == 0 {
                "view".to_owned()
            } else if op == 1 {
                "download".to_owned()
            } else if op == 2 {
                "edit".to_owned()
            } else {
                "delete".to_owned()
            };
            let sensitivity = if line.tag == 3 {
                5
            } else if line.tag == 1 || line.tag == 4 {
                2
            } else {
                draw_u8(&mut self.rng, 1, 2)
            };
            let timestamp = Stamp {
                epoch,
                day: line.moment.day,
                hour: line.moment.hour,
                minute: line.moment.minute,
                second: line.moment.second,
            };
            self.lines.push(
                LogRecord {
                    user_id: line.user_id,
                    timestamp,
                    operation,
                    file_size_kb: size,
                    sensitivity,
                    is_anomaly: line.tag != 0,
                    scenario_tag: line.tag,
                },
            );
            assert(timestamp.moment() == line.moment);
            assert(fits(self.cfg, self.today as int, self.shared, n as int, self.lines@[n as int]));
            assert(self.lines@.drop_last() =~= old(self).lines@);
            assert(entries(self.lines@) =~= accepted(old(self).progress(), epoch, size).lines);
        }
    }

    /// The complete data set, sorted by time and user.
    pub fn finish(self) -> (r: Vec<LogRecord>)
        requires
            self.inv(),
            self.complete(),
        ensures
            data_set(self.config(), self.day(), self.made()),
            exists|order: Seq<usize>|
                stable_sorting(time_keys(self.made()), order) && r@ == taken(self.made(), order),
    {
        assert(shared_fits(self.cfg, self.today as int, self.shared, entered(self.cfg)));
        sort_logs(&self.lines)
    }
}

/// What holds of every data set in the making: it was started on a day that its configuration
/// allows, it never has more lines than configured, and each line is one that its place allows.
/// How far it has come is told by its parts.
pub proof fn law_data_set_in_the_making(g: Generator)
    requires
        g.inv(),
    ensures
        g.config().valid(),
        g.config().startable(g.day()),
        g.made().len() <= g.config().total(),
        g.complete() ==> g.made().len() == g.config().total(),
        g.waiting() is Some ==> g.made().len() < g.config().total(),
        forall|i: int|
            0 <= i < g.made().len() ==> fits(
                g.config(),
                g.day(),
                g.drawn(),
                i,
                #[trigger] g.made()[i],
            ),
        g.progress().source == g.source(),
        g.progress().cfg == g.config(),
        g.progress().today == g.day(),
        g.progress().shared == g.drawn(),
        g.progress().lines == entries(g.made()),
        g.progress().waiting is Some <==> g.waiting() is Some,
        g.progress().waiting matches Some(line) ==> g.waiting() == Some(line.moment),
{
}

/// What a caller does with each draft: from the draft and the generator of all draws it finds the
/// time stamp and the size of the line, and leaves a generator behind.
pub open spec fn one_line(
    p: Progress,
    caller: spec_fn(Draft, StdRng) -> (i64, Double, StdRng),
) -> Progress {
    let (answer, q) = next_of(p);
    let draft = answer->Ok_0->0;
    let (epoch, size, source) = caller(draft, q.source);
    accepted(Progress { source, ..q }, epoch, size)
}

/// The stages of a data set from its start to its last line, one line after the other.
pub open spec fn stages(
    cfg: GenConfig,
    today: int,
    caller: spec_fn(Draft, StdRng) -> (i64, Double, StdRng),
    run: Seq<Progress>,
) -> bool {
    &&& run.len() == cfg.total() + 1
    &&& run[0] == begun(cfg, today)
    &&& forall|i: int|
        0 <= i < cfg.total() ==> {
            &&& #[trigger] run[i + 1] == one_line(run[i], caller)
            &&& next_of(run[i]).0 matches Ok(Some(_))
        }
}

proof fn lemma_same_stages(
    cfg: GenConfig,
    today: int,
    caller: spec_fn(Draft, StdRng) -> (i64, Double, StdRng),
    a: Seq<Progress>,
    b: Seq<Progress>,
    i: int,
)
    requires
        stages(cfg, today, caller, a),
        stages(cfg, today, caller, b),
        0 <= i <= cfg.total(),
    ensures
        a[i] == b[i],
    decreases i,
{
    if i > 0 {
        lemma_same_stages(cfg, today, caller, a, b, i - 1);
        assert(a[(i - 1) + 1] == one_line(a[i - 1], caller));
        assert(b[(i - 1) + 1] == one_line(b[i - 1], caller));
    }
}

/// A fixed seed gives the same data: two data sets of the same configuration, made on the same day
/// for a caller that answers equal drafts equally, agree line by line once they are sorted.
pub proof fn law_same_seed_same_data(
    cfg: GenConfig,
    today: int,
    caller: spec_fn(Draft, StdRng) -> (i64, Double, StdRng),
    a: Seq<Progress>,
    b: Seq<Progress>,
    lines_a: Seq<LogRecord>,
    lines_b: Seq<LogRecord>,
    order_a: Seq<usize>,
    order_b: Seq<usize>,
)
    requires
        stages(cfg, today, caller, a),
        stages(cfg, today, caller, b),
        entries(lines_a) == a.last().lines,
        entries(lines_b) == b.last().lines,
        stable_sorting(time_keys(lines_a), order_a),
        stable_sorting(time_keys(lines_b), order_b),
    ensures
        a == b,
        entries(taken(lines_a, order_a)) == entries(taken(lines_b, order_b)),
{
    assert forall|i: int| 0 <= i < a.len() implies a[i] == b[i] by {
        lemma_same_stages(cfg, today, caller, a, b, i);
    }
    assert(a =~= b);
    law_sorting_goes_by_entries(lines_a, lines_b, order_a, order_b);
}

/// The standard data set can be made on any day. It has 500 lines, 25 of them anomalies: 4 at
/// night, 12 in a burst, 5 above clearance and 4 huge ones.
pub proof fn law_standard_data_set(cfg: GenConfig)
    requires
        cfg.seed == SEED,
        cfg.users == NUM_USERS,
        cfg.normal_per_user == NORMAL_PER_USER,
        cfg.a == 4,
        cfg.b == 12,
        cfg.c == 5,
        cfg.d == 4,
        cfg.c_size_lo == (Double { bits: 0x4071_8000_0000_0000 }),
        !cfg.unknown,
    ensures
        cfg.valid(),
        forall|today: int| in_calendar(today) ==> #[trigger] cfg.startable(today),
        cfg.total() == 500,
        cfg.total() - cfg.block(0) == 25,
        cfg.block(1) == 4,
        cfg.block(2) == 12,
        cfg.block(3) == 5,
        cfg.block(4) == 4,
{
    lemma_starts(cfg);
    lemma_order_key(cfg.c_size_lo, Double { bits: CLEARANCE_SIZE_HI });
}

/// Every scenario has exactly the configured number of lines, in the data set as it is made and
/// as it is sorted.
pub proof fn law_lines_of_a_scenario(
    cfg: GenConfig,
    today: int,
    lines: Seq<LogRecord>,
    order: Seq<usize>,
    tag: u8,
)
    requires
        cfg.valid(),
        data_set(cfg, today, lines),
        stable_sorting(time_keys(lines), order),
        tag <= 8,
    ensures
        count(lines.len(), |i: int| lines[i].scenario_tag == tag) == cfg.block(tag as int),
        count(lines.len(), |i: int| taken(lines, order)[i].scenario_tag == tag) == cfg.block(
            tag as int,
        ),
{
    lemma_starts(cfg);
    let n = lines.len();
    let (lo, hi) = (cfg.start(tag as int) as int, cfg.start(tag + 1) as int);
    let tagged = |i: int| lines[i].scenario_tag == tag;
    let within = |i: int| lo <= i < hi;
    let shared = choose|shared: Shared|
        {
            &&& #[trigger] shared_fits(cfg, today, shared, entered(cfg))
            &&& forall|i: int|
                0 <= i < lines.len() ==> fits(cfg, today, shared, i, #[trigger] lines[i])
        };
    assert forall|i: int| 0 <= i < n implies #[trigger] tagged(i) == within(i) by {
        assert(fits(cfg, today, shared, i, lines[i]));
    }
    lemma_count_same(n, tagged, within);
    lemma_count_range(n, lo, hi);
    let p = |line: LogRecord| line.scenario_tag == tag;
    law_sorting_keeps_lines(lines, order, p);
    lemma_count_same(n, |i: int| p(lines[i]), tagged);
    lemma_count_same(
        n,
        |i: int| p(taken(lines, order)[i]),
        |i: int| taken(lines, order)[i].scenario_tag == tag,
    );
}

/// As many lines are labelled anomalies as were injected, in the data set as it is made and as it
/// is sorted.
pub proof fn law_labelled_anomalies(
    cfg: GenConfig,
    today: int,
    lines: Seq<LogRecord>,
    order: Seq<usize>,
)
    requires
        cfg.valid(),
        data_set(cfg, today, lines),
        stable_sorting(time_keys(lines), order),
    ensures
        count(lines.len(), |i: int| lines[i].is_anomaly) == cfg.total() - cfg.block(0),
        count(lines.len(), |i: int| taken(lines, order)[i].is_anomaly) == cfg.total() - cfg.block(
            0,
        ),
{
    let p = |line: LogRecord| line.is_anomaly;
    law_sorting_keeps_lines(lines, order, p);
    lemma_count_same(lines.len(), |i: int| p(lines[i]), |i: int| lines[i].is_anomaly);
    lemma_count_same(
        lines.len(),
        |i: int| p(taken(lines, order)[i]),
        |i: int| taken(lines, order)[i].is_anomaly,
    );
    lemma_starts(cfg);
    let n = lines.len();
    let labelled = |i: int| lines[i].is_anomaly;
    let (lo, hi) = (cfg.start(1) as int, n as int);
    let within = |i: int| lo <= i < hi;
    let shared = choose|shared: Shared|
        {
            &&& #[trigger] shared_fits(cfg, today, shared, entered(cfg))
            &&& forall|i: int|
                0 <= i < lines.len() ==> fits(cfg, today, shared, i, #[trigger] lines[i])
        };
    assert forall|i: int| 0 <= i < n implies #[trigger] labelled(i) == within(i) by {
        assert(fits(cfg, today, shared, i, lines[i]));
    }
    lemma_count_same(n, labelled, within);
    lemma_count_range(n, lo, hi);
}

/// Ordinary lines fall on a workday of the last seven days, from nine to six, at sensitivity 1 or
/// 2, and none is a deletion; and every line belongs to one of the users.
pub proof fn law_ordinary_lines(cfg: GenConfig, today: int, lines: Seq<LogRecord>, i: int)
    requires
        cfg.valid(),
        data_set(cfg, today, lines),
        0 <= i < lines.len(),
    ensures
        1 <= lines[i].user_id <= cfg.users,
        lines[i].is_anomaly == (lines[i].scenario_tag != 0),
        !lines[i].is_anomaly ==> {
            &&& work_day(today, lines[i].timestamp.day as int)
            &&& 9 <= lines[i].timestamp.hour < 18
            &&& 1 <= lines[i].sensitivity <= 2
            &&& operation_fits(0, lines[i].operation@)
        },
{
    lemma_starts(cfg);
    let shared = choose|shared: Shared|
        {
            &&& #[trigger] shared_fits(cfg, today, shared, entered(cfg))
            &&& forall|i: int|
                0 <= i < lines.len() ==> fits(cfg, today, shared, i, #[trigger] lines[i])
        };
    assert(fits(cfg, today, shared, i, lines[i]));
    let tag = cfg.tag_at(i);
    if tag == 0 {
        lemma_user_in_range(i, cfg.users as int, cfg.normal_per_user as int);
    }
}

/// The burst of downloads and the burst of deletions stay within five minutes, as long as the
/// burst of downloads has at most fifteen lines.
pub proof fn law_bursts_fit_the_window(
    cfg: GenConfig,
    today: int,
    lines: Seq<LogRecord>,
    i: int,
    j: int,
)
    requires
        cfg.valid(),
        cfg.b <= 15,
        data_set(cfg, today, lines),
        0 <= i <= j < lines.len(),
        lines[i].scenario_tag == lines[j].scenario_tag,
        lines[i].scenario_tag == 2 || lines[i].scenario_tag == 5,
    ensures
        lines[i].user_id == lines[j].user_id,
        0 <= lines[j].timestamp.moment().seconds() - lines[i].timestamp.moment().seconds() <= 252,
{
    lemma_starts(cfg);
    let shared = choose|shared: Shared|
        {
            &&& #[trigger] shared_fits(cfg, today, shared, entered(cfg))
            &&& forall|i: int|
                0 <= i < lines.len() ==> fits(cfg, today, shared, i, #[trigger] lines[i])
        };
    assert(fits(cfg, today, shared, i, lines[i]));
    assert(fits(cfg, today, shared, j, lines[j]));
}

/// Every user has as many ordinary lines as configured, and one line of the collusion, in the data
/// set as it is made and as it is sorted.
pub proof fn law_lines_of_a_user(
    cfg: GenConfig,
    today: int,
    lines: Seq<LogRecord>,
    order: Seq<usize>,
    user: u32,
)
    requires
        cfg.valid(),
        data_set(cfg, today, lines),
        stable_sorting(time_keys(lines), order),
        1 <= user <= cfg.users,
    ensures
        count(
            lines.len(),
            |i: int|
                taken(lines, order)[i].scenario_tag == 0 && taken(lines, order)[i].user_id == user,
        ) == cfg.normal_per_user,
        count(
            lines.len(),
            |i: int|
                taken(lines, order)[i].scenario_tag == 8 && taken(lines, order)[i].user_id == user,
        ) == (if cfg.unknown {
            1nat
        } else {
            0nat
        }),
        count(lines.len(), |i: int| lines[i].scenario_tag == 0 && lines[i].user_id == user)
            == cfg.normal_per_user,
        count(lines.len(), |i: int| lines[i].scenario_tag == 8 && lines[i].user_id == user) == (
        if cfg.unknown {
            1nat
        } else {
            0nat
        }),
{
    let sorted = taken(lines, order);
    let ordinary = |line: LogRecord| line.scenario_tag == 0 && line.user_id == user;
    let collusion = |line: LogRecord| line.scenario_tag == 8 && line.user_id == user;
    law_sorting_keeps_lines(lines, order, ordinary);
    law_sorting_keeps_lines(lines, order, collusion);
    lemma_count_same(
        lines.len(),
        |i: int| ordinary(lines[i]),
        |i: int| lines[i].scenario_tag == 0 && lines[i].user_id == user,
    );
    lemma_count_same(
        lines.len(),
        |i: int| collusion(lines[i]),
        |i: int| lines[i].scenario_tag == 8 && lines[i].user_id == user,
    );
    lemma_count_same(
        lines.len(),
        |i: int| ordinary(sorted[i]),
        |i: int| taken(lines, order)[i].scenario_tag == 0 && taken(lines, order)[i].user_id == user,
    );
    lemma_count_same(
        lines.len(),
        |i: int| collusion(sorted[i]),
        |i: int| taken(lines, order)[i].scenario_tag == 8 && taken(lines, order)[i].user_id == user,
    );
    lemma_starts(cfg);
    let n = lines.len();
    let each = cfg.normal_per_user as int;
    let (u, users) = (user as int, cfg.users as int);
    let (lo, hi) = ((u - 1) * each, u * each);
    assert(0 <= lo && hi == lo + each && hi <= users * each) by (nonlinear_arith)
        requires
            lo == (u - 1) * each,
            hi == u * each,
            1 <= u <= users,
            each >= 0,
    ;
    let shared = choose|shared: Shared|
        {
            &&& #[trigger] shared_fits(cfg, today, shared, entered(cfg))
            &&& forall|i: int|
                0 <= i < lines.len() ==> fits(cfg, today, shared, i, #[trigger] lines[i])
        };
    let p = |i: int| lines[i].scenario_tag == 0 && lines[i].user_id == user;
    let within = |i: int| lo <= i < hi;
    assert forall|i: int| 0 <= i < n implies #[trigger] p(i) == within(i) by {
        assert(fits(cfg, today, shared, i, lines[i]));
        if i < users * each {
            assert((1 + i / each == u) == (lo <= i < hi)) by (nonlinear_arith)
                requires
                    lo == (u - 1) * each,
                    hi == u * each,
                    0 <= i < users * each,
                    1 <= u <= users,
                    each >= 0,
            ;
        }
    }
    lemma_count_same(n, p, within);
    lemma_count_range(n, lo, hi);
    let p = |i: int| lines[i].scenario_tag == 8 && lines[i].user_id == user;
    let (lo, hi) = if cfg.unknown {
        (cfg.start(8) + u - 1, cfg.start(8) + u)
    } else {
        (0, 0)
    };
    let within = |i: int| lo <= i < hi;
    assert forall|i: int| 0 <= i < n implies #[trigger] p(i) == within(i) by {
        assert(fits(cfg, today, shared, i, lines[i]));
    }
    lemma_count_same(n, p, within);
    lemma_count_range(n, lo, hi);
}

/// The slow creep climbs: of two of its lines the later one, on a later day, has the larger size.
/// All are of user 1 and lie within ninety days.
pub proof fn law_creep_climbs(
    cfg: GenConfig,
    today: int,
    lines: Seq<LogRecord>,
    i: int,
    j: int,
)
    requires
        cfg.valid(),
        data_set(cfg, today, lines),
        sized(cfg, lines),
        0 <= i < j < lines.len(),
        lines[i].scenario_tag == 7,
        lines[j].scenario_tag == 7,
    ensures
        lines[i].user_id == 1,
        lines[j].user_id == 1,
        today - 90 < lines[i].timestamp.day < lines[j].timestamp.day <= today,
        lines[j].file_size_kb.above(lines[i].file_size_kb),
        2 * lines[i].file_size_kb.value() == (220 + 3 * (i - cfg.start(7))) * pow2(1074),
{
    lemma_starts(cfg);
    let shared = choose|shared: Shared|
        {
            &&& #[trigger] shared_fits(cfg, today, shared, entered(cfg))
            &&& forall|i: int|
                0 <= i < lines.len() ==> fits(cfg, today, shared, i, #[trigger] lines[i])
        };
    assert(fits(cfg, today, shared, i, lines[i]));
    assert(fits(cfg, today, shared, j, lines[j]));
    let (k, l) = (i - cfg.start(7), j - cfg.start(7));
    lemma_pow2_pos(1074);
    let p = pow2(1074) as int;
    assert((220 + 3 * k) * p < (220 + 3 * l) * p) by (nonlinear_arith)
        requires
            k < l,
            p > 0,
    ;
}

/// The sizes of the scenarios: positive in ordinary lines, more than 500 kilobytes at night, more
/// than 200 in the burst of downloads, 1200 or more in a huge download.
pub proof fn law_sizes_of_the_scenarios(
    cfg: GenConfig,
    today: int,
    lines: Seq<LogRecord>,
    i: int,
)
    requires
        cfg.valid(),
        data_set(cfg, today, lines),
        sized(cfg, lines),
        0 <= i < lines.len(),
    ensures
        lines[i].scenario_tag == 0 ==> lines[i].file_size_kb.above(Double { bits: 0 }),
        lines[i].scenario_tag == 1 ==> lines[i].file_size_kb.above(
            Double { bits: 0x407f_4000_0000_0000 },
        ),
        lines[i].scenario_tag == 2 ==> lines[i].file_size_kb.above(
            Double { bits: 0x4069_0000_0000_0000 },
        ),
        lines[i].scenario_tag == 4 ==> lines[i].file_size_kb.at_least(
            Double { bits: 0x4092_c000_0000_0000 },
        ),
{
    lemma_starts(cfg);
    let shared = choose|shared: Shared|
        {
            &&& #[trigger] shared_fits(cfg, today, shared, entered(cfg))
            &&& forall|i: int|
                0 <= i < lines.len() ==> fits(cfg, today, shared, i, #[trigger] lines[i])
        };
    assert(fits(cfg, today, shared, i, lines[i]));
    lemma_order_key(
        Double { bits: 0x407f_4000_0000_0000 },
        Double { bits: 0x4082_c000_0000_0000 },
    );
    lemma_order_key(
        Double { bits: 0x4069_0000_0000_0000 },
        Double { bits: 0x4075_e000_0000_0000 },
    );
}

/// How many lines a data set has: those of the users and of the four scenarios, and with the
/// scenarios that nothing was tuned on 61 more and one for each user. It can be made if that
/// number fits, there is a user, the burst's offsets fit, and the clearance scenario has a size
/// below 450 to start from.
pub proof fn law_size_of_a_data_set(cfg: GenConfig)
    ensures
        cfg.total() == cfg.users * cfg.normal_per_user + cfg.a + cfg.b + cfg.c + cfg.d + (
        if cfg.unknown {
            61 + cfg.users
        } else {
            0
        }),
        cfg.total() - cfg.block(0) == cfg.a + cfg.b + cfg.c + cfg.d + (if cfg.unknown {
            61 + cfg.users
        } else {
            0
        }),
        cfg.valid() <==> cfg.users >= 1 && cfg.total() <= usize::MAX && 18 * (cfg.b - 1)
            <= 0xffff_ffff && (cfg.c > 0 ==> (Double { bits: 0x407c_2000_0000_0000 }).above(
            cfg.c_size_lo,
        )),
{
    lemma_starts(cfg);
    assert(0 <= cfg.users * cfg.normal_per_user) by (nonlinear_arith)
        requires
            cfg.users >= 0,
            cfg.normal_per_user >= 0,
    ;
}

/// A valid data set whose burst ends before midnight can be made on any day of the calendar, and
/// another on any day that lies early enough for its burst.
pub proof fn law_days_to_start(cfg: GenConfig, today: int)
    requires
        cfg.valid(),
        in_calendar(today),
    ensures
        cfg.b <= 1967 ==> cfg.startable(today),
        cfg.startable(today) <==> 86_400 * (95_745_399 - today) + 35_400 > 18 * (cfg.b - 1),
{
}

/// The scenarios follow one another: the lines of a lower tag come before those of a higher one.
pub proof fn law_scenarios_follow(
    cfg: GenConfig,
    today: int,
    lines: Seq<LogRecord>,
    i: int,
    j: int,
)
    requires
        cfg.valid(),
        data_set(cfg, today, lines),
        0 <= i <= j < lines.len(),
    ensures
        lines[i].scenario_tag <= lines[j].scenario_tag <= 8,
        lines[i].scenario_tag == 0 <==> i < cfg.users * cfg.normal_per_user,
        lines[i].scenario_tag >= 5 ==> cfg.unknown,
        lines[i].is_anomaly <==> i >= cfg.users * cfg.normal_per_user,
{
    lemma_starts(cfg);
    let shared = choose|shared: Shared|
        {
            &&& #[trigger] shared_fits(cfg, today, shared, entered(cfg))
            &&& forall|i: int|
                0 <= i < lines.len() ==> fits(cfg, today, shared, i, #[trigger] lines[i])
        };
    assert(fits(cfg, today, shared, i, lines[i]));
    assert(fits(cfg, today, shared, j, lines[j]));
}

/// A day from Monday to Friday, one of the last seven.
pub open spec fn recent_workday(today: int, day: int) -> bool {
    0 <= today - day < 7 && 1 <= day % 7 <= 5
}

/// What a place in a data set allows of its line, with the draws that hold for whole blocks.
proof fn lemma_line(cfg: GenConfig, today: int, lines: Seq<LogRecord>, i: int) -> (shared: Shared)
    requires
        data_set(cfg, today, lines),
        0 <= i < lines.len(),
    ensures
        shared_fits(cfg, today, shared, entered(cfg)),
        fits(cfg, today, shared, i, lines[i]),
        0 <= cfg.users * cfg.normal_per_user,
{
    assert(0 <= cfg.users * cfg.normal_per_user) by (nonlinear_arith)
        requires
            cfg.users >= 0,
            cfg.normal_per_user >= 0,
    ;
    let shared = choose|shared: Shared|
        {
            &&& #[trigger] shared_fits(cfg, today, shared, entered(cfg))
            &&& forall|i: int|
                0 <= i < lines.len() ==> fits(cfg, today, shared, i, #[trigger] lines[i])
        };
    assert(fits(cfg, today, shared, i, lines[i]));
    shared
}

/// Ordinary lines fall on a workday of the last seven days from nine to six; each user has as many
/// as configured, one user after the other; they are views, downloads and edits of level 1 or 2.
pub proof fn law_ordinary_lines_of_each_user(
    cfg: GenConfig,
    today: int,
    lines: Seq<LogRecord>,
    i: int,
)
    requires
        cfg.valid(),
        data_set(cfg, today, lines),
        0 <= i < lines.len(),
        lines[i].scenario_tag == 0,
    ensures
        lines[i].user_id == 1 + i / cfg.normal_per_user as int,
        recent_workday(today, lines[i].timestamp.day as int),
        9 <= lines[i].timestamp.hour <= 17,
        1 <= lines[i].sensitivity <= 2,
        lines[i].operation@ == "view"@ || lines[i].operation@ == "download"@ || lines[i].operation@
            == "edit"@,
{
    let shared = lemma_line(cfg, today, lines, i);
    lemma_starts(cfg);
}

/// The lines at night, above clearance and of huge downloads are downloads on a workday of the last
/// seven days, the users in turn: at night before six and at level 2, above clearance from nine to
/// six and at level 5, huge ones from nine to six and at level 2.
pub proof fn law_single_anomalies(cfg: GenConfig, today: int, lines: Seq<LogRecord>, i: int)
    requires
        cfg.valid(),
        data_set(cfg, today, lines),
        0 <= i < lines.len(),
        lines[i].scenario_tag == 1 || lines[i].scenario_tag == 3 || lines[i].scenario_tag == 4,
    ensures
        recent_workday(today, lines[i].timestamp.day as int),
        lines[i].operation@ == "download"@,
        ({
            let night = cfg.users * cfg.normal_per_user;
            let clearance = night + cfg.a + cfg.b;
            let huge = clearance + cfg.c;
            let hour = lines[i].timestamp.hour;
            &&& lines[i].scenario_tag == 1 ==> lines[i].user_id == 1 + (i - night)
                % cfg.users as int && hour <= 5 && lines[i].sensitivity == 2
            &&& lines[i].scenario_tag == 3 ==> lines[i].user_id == 1 + (i - clearance)
                % cfg.users as int && 9 <= hour <= 17 && lines[i].sensitivity == 5
            &&& lines[i].scenario_tag == 4 ==> lines[i].user_id == 1 + (i - huge)
                % cfg.users as int && 9 <= hour <= 17 && lines[i].sensitivity == 2
        }),
{
    let shared = lemma_line(cfg, today, lines, i);
    lemma_starts(cfg);
}

/// The burst is of downloads and starts at 14:10 on a workday of the last seven days; the deletions
/// are those of the last user and start at ten on such a day. Their lines are of level 1 or 2 and
/// follow every 18 seconds.
pub proof fn law_lines_of_the_bursts(
    cfg: GenConfig,
    today: int,
    lines: Seq<LogRecord>,
    i: int,
) -> (day: int)
    requires
        cfg.valid(),
        data_set(cfg, today, lines),
        0 <= i < lines.len(),
        lines[i].scenario_tag == 2 || lines[i].scenario_tag == 5,
    ensures
        recent_workday(today, day),
        1 <= lines[i].user_id <= cfg.users,
        1 <= lines[i].sensitivity <= 2,
        lines[i].scenario_tag == 2 ==> {
            let burst = cfg.users * cfg.normal_per_user + cfg.a;
            &&& lines[i].timestamp.moment().seconds() == day * 86_400 + 51_000 + 18 * (i - burst)
            &&& lines[i].operation@ == "download"@
        },
        lines[i].scenario_tag == 5 ==> {
            let purge = cfg.users * cfg.normal_per_user + cfg.a + cfg.b + cfg.c + cfg.d;
            &&& lines[i].timestamp.moment().seconds() == day * 86_400 + 36_000 + 18 * (i - purge)
            &&& lines[i].operation@ == "delete"@
            &&& lines[i].user_id == cfg.users
        },
{
    let shared = lemma_line(cfg, today, lines, i);
    lemma_starts(cfg);
    let day = if lines[i].scenario_tag == 2 {
        shared.burst_day as int
    } else {
        shared.purge_day as int
    };
    assert(weekend(day) <==> day % 7 == 6 || day % 7 == 0) by {
        law_week(day);
    }
    day
}

/// The weekend access is by the last user but one, on a Saturday or Sunday of the last thirteen
/// days, from ten to five, views and edits. The creep is by the first user, downloads from nine to
/// six. The collusion is one download by each user in turn, on a workday of the last seven days,
/// from eleven to one. All are of level 1 or 2.
pub proof fn law_subtle_anomalies(cfg: GenConfig, today: int, lines: Seq<LogRecord>, i: int)
    requires
        cfg.valid(),
        data_set(cfg, today, lines),
        0 <= i < lines.len(),
        lines[i].scenario_tag >= 6,
    ensures
        1 <= lines[i].sensitivity <= 2,
        ({
            let last = cfg.users * cfg.normal_per_user + cfg.a + cfg.b + cfg.c + cfg.d + 61;
            let day = lines[i].timestamp.day as int;
            let hour = lines[i].timestamp.hour;
            let op = lines[i].operation@;
            &&& lines[i].scenario_tag == 6 ==> {
                &&& cfg.users == 1 ==> lines[i].user_id == 1
                &&& cfg.users >= 2 ==> lines[i].user_id == cfg.users - 1
                &&& 1 <= today - day <= 13
                &&& day % 7 == 6 || day % 7 == 0
                &&& 10 <= hour <= 16
                &&& op == "view"@ || op == "edit"@
            }
            &&& lines[i].scenario_tag == 7 ==> {
                &&& lines[i].user_id == 1
                &&& 9 <= hour <= 17
                &&& op == "download"@
            }
            &&& lines[i].scenario_tag == 8 ==> {
                &&& lines[i].user_id == 1 + (i - last)
                &&& recent_workday(today, day)
                &&& 11 <= hour <= 12
                &&& op == "download"@
            }
        }),
{
    let shared = lemma_line(cfg, today, lines, i);
    lemma_starts(cfg);
}

/// What the lines of one scenario share: the burst and the deletions step by 18 seconds and have
/// one user each, the weekend access and the collusion have one day each.
pub proof fn law_lines_of_one_scenario(
    cfg: GenConfig,
    today: int,
    lines: Seq<LogRecord>,
    i: int,
    j: int,
)
    requires
        cfg.valid(),
        data_set(cfg, today, lines),
        0 <= i <= j < lines.len(),
        lines[i].scenario_tag == lines[j].scenario_tag,
    ensures
        lines[i].scenario_tag == 2 || lines[i].scenario_tag == 5 ==> {
            &&& lines[i].user_id == lines[j].user_id
            &&& lines[j].timestamp.moment().seconds() - lines[i].timestamp.moment().seconds() == 18
                * (j - i)
        },
        lines[i].scenario_tag == 6 || lines[i].scenario_tag == 8 ==> lines[i].timestamp.day
            == lines[j].timestamp.day,
{
    lemma_starts(cfg);
    let shared = choose|shared: Shared|
        {
            &&& #[trigger] shared_fits(cfg, today, shared, entered(cfg))
            &&& forall|i: int|
                0 <= i < lines.len() ==> fits(cfg, today, shared, i, #[trigger] lines[i])
        };
    assert(fits(cfg, today, shared, i, lines[i]));
    assert(fits(cfg, today, shared, j, lines[j]));
}

/// The forty lines of the creep are spread over ninety days: a line that `j` others follow lies
/// ninety times `j` fortieths of a day back, whole days only. (One lies a day later, where doubles
/// fall short of 63.)
pub proof fn law_days_of_the_creep(
    cfg: GenConfig,
    today: int,
    lines: Seq<LogRecord>,
    i: int,
)
    requires
        cfg.valid(),
        data_set(cfg, today, lines),
        0 <= i < lines.len(),
        lines[i].scenario_tag == 7,
    ensures
        ({
            let first = cfg.users * cfg.normal_per_user + cfg.a + cfg.b + cfg.c + cfg.d + 21;
            let j = first + 39 - i;
            let back = today - lines[i].timestamp.day;
            &&& 0 <= j < 40
            &&& j != 28 ==> 40 * back <= 90 * j < 40 * (back + 1)
            &&& j == 28 ==> back == 62
        }),
{
    lemma_starts(cfg);
    let shared = choose|shared: Shared|
        {
            &&& #[trigger] shared_fits(cfg, today, shared, entered(cfg))
            &&& forall|i: int|
                0 <= i < lines.len() ==> fits(cfg, today, shared, i, #[trigger] lines[i])
        };
    assert(fits(cfg, today, shared, i, lines[i]));
}

/// The sizes that are asked for, in kilobytes: 600 to 1600 at night, 350 to 700 in the burst, from
/// the configured size to 450 above clearance, 1200 to 2500 in a huge download, 50 to 120 in a
/// deletion, 60 to 200 at the weekend, 180 to 250 in the collusion. The lower end belongs to the
/// range and the upper does not. Ordinary sizes are positive, and step `k` of the creep has 110 and
/// one and a half times `k`.
pub proof fn law_sizes_asked_for(cfg: GenConfig, tag: int, k: int, size: Double)
    requires
        0 <= tag <= 8,
        tag == 7 ==> 0 <= k < 40,
    ensures
        ({
            let fit = size_fits(size_plan(cfg, tag, k), size);
            let within = |lo: u64, hi: u64| size.at_least(Double { bits: lo }) && (Double {
                bits: hi,
            }).above(size);
            &&& tag == 0 ==> fit == size.above(Double { bits: 0 })
            &&& tag == 1 ==> fit == within(0x4082_c000_0000_0000, 0x4099_0000_0000_0000)
            &&& tag == 2 ==> fit == within(0x4075_e000_0000_0000, 0x4085_e000_0000_0000)
            &&& tag == 3 ==> fit == within(cfg.c_size_lo.bits, 0x407c_2000_0000_0000)
            &&& tag == 4 ==> fit == within(0x4092_c000_0000_0000, 0x40a3_8800_0000_0000)
            &&& tag == 5 ==> fit == within(0x4049_0000_0000_0000, 0x405e_0000_0000_0000)
            &&& tag == 6 ==> fit == within(0x404e_0000_0000_0000, 0x4069_0000_0000_0000)
            &&& tag == 7 ==> fit == (!size.nan() && 2 * size.value() == (220 + 3 * k) * pow2(1074))
            &&& tag == 8 ==> fit == within(0x4066_8000_0000_0000, 0x406f_4000_0000_0000)
        }),
{
}

/// A line fails for want of a day only in the scenarios that nothing was tuned on, and only within
/// ninety days of the start of the calendar.
pub proof fn law_days_run_out_at_the_start_only(cfg: GenConfig, today: int, index: int)
    requires
        in_calendar(today),
        day_missing(cfg, today, index),
        0 <= index,
    ensures
        cfg.unknown,
        today - 90 < -95_746_129,
        index >= cfg.users * cfg.normal_per_user + cfg.a + cfg.b + cfg.c + cfg.d + 15,
{
    lemma_starts(cfg);
    assert(0 <= cfg.users * cfg.normal_per_user) by (nonlinear_arith)
        requires
            cfg.users >= 0,
            cfg.normal_per_user >= 0,
    ;
    if cfg.tag_at(index) == 6 && in_calendar(today - 6) {
        law_weekend_within_two_weeks(today);
    }
}

/// The clock time of a line that has no fixed moment is drawn: the hour from nine to below
/// eighteen, at night from zero to below six, at the weekend from ten to below seventeen, in the
/// collusion from eleven to below thirteen; then the minute and the second from all sixty. The day
/// is drawn before them where the scenario has none.
pub proof fn law_clock_times_are_drawn(p: Progress, tag: int, k: int)
    requires
        0 <= tag <= 8,
        tag != 2,
        tag != 5,
        line_from(p, tag, k).0 is Some,
    ensures
        ({
            let (moment, op) = line_from(p, tag, k).0->0;
            let last = line_from(p, tag, k).1;
            let drawn_day = tag == 0 || tag == 1 || tag == 3 || tag == 4;
            let (back, source) = workday_from(p.source, p.today, 0);
            let start = if drawn_day {
                source
            } else {
                p.source
            };
            let (lo, hi) = if tag == 1 {
                (0u32, 6u32)
            } else if tag == 6 {
                (10u32, 17u32)
            } else if tag == 8 {
                (11u32, 13u32)
            } else {
                (9u32, 18u32)
            };
            let (hour, after_hour) = drawn_u32(start, lo, hi);
            let (minute, after_minute) = drawn_u32(after_hour, 0, 60);
            let (second, after_second) = drawn_u32(after_minute, 0, 60);
            &&& (moment.hour, moment.minute, moment.second) == (hour, minute, second)
            &&& drawn_day ==> moment.day == (p.today - back) as i32
            &&& tag == 6 ==> moment.day == (p.today - (p.today - p.shared.weekend_day)) as i32
            &&& tag == 8 ==> moment.day == (p.today - (p.today - p.shared.collusion_day)) as i32
            &&& tag != 6 ==> last == after_second
            &&& tag == 6 ==> {
                let (edit, end) = drawn_usize(after_second, 0, 2, usize::BITS);
                last == end && (op == 0 <==> edit == 0) && (op == 2 <==> edit != 0)
            }
        }),
{
}

/// The burst has a user drawn from all users and a drawn workday, the deletions and the collusion a
/// drawn workday each, and the weekend access a drawn weekend day, once the lines before the block
/// are made.
pub proof fn law_blocks_are_drawn(p: Progress)
    ensures
        p.ready == 0 && p.lines.len() == p.cfg.start(2) ==> {
            let (user, next) = drawn_u32(p.source, 0, p.cfg.users);
            let (back, source) = workday_from(next, p.today, 0);
            let q = with_burst(p);
            &&& q.shared.burst_user == (1 + user) as u32
            &&& q.shared.burst_day == (p.today - back) as i32
            &&& q.source == source
            &&& q.ready == 1
            &&& q.lines == p.lines
        },
        p.cfg.unknown && p.ready == 1 && p.lines.len() == p.cfg.start(5) ==> {
            let (back, source) = workday_from(p.source, p.today, 0);
            let q = with_purge(p);
            &&& q.shared.purge_day == (p.today - back) as i32
            &&& q.source == source
            &&& q.ready == 2
            &&& q.lines == p.lines
        },
        p.cfg.unknown && p.ready == 2 && p.lines.len() == p.cfg.start(6) && in_calendar(
            p.today - weekend_from(p.source, p.today).0,
        ) ==> {
            let (back, source) = weekend_from(p.source, p.today);
            let q = with_weekend(p);
            &&& q.shared.weekend_day == (p.today - back) as i32
            &&& q.source == source
            &&& q.ready == 3
            &&& q.lines == p.lines
        },
        p.cfg.unknown && p.ready == 3 && p.lines.len() == p.cfg.start(8) ==> {
            let (back, source) = workday_from(p.source, p.today, 0);
            let q = with_collusion(p);
            &&& q.shared.collusion_day == (p.today - back) as i32
            &&& q.source == source
            &&& q.ready == 4
            &&& q.lines == p.lines
        },
{
}

/// A line that is made has the user, the moment and the tag of its draft and the time stamp and
/// the size that were given, and stands after the lines before it. An ordinary line's operation is
/// drawn from view, download and edit, and the levels that are not fixed from one and two.
pub proof fn law_made_lines(p: Progress, epoch: i64, size: Double)
    requires
        p.waiting is Some,
        p.waiting->0.tag <= 8,
    ensures
        ({
            let line = p.waiting->0;
            let q = accepted(p, epoch, size);
            let made = q.lines.last();
            let (code, after_code) = drawn_usize(p.source, 0, 3, usize::BITS);
            let before_level = if line.tag == 0 {
                after_code
            } else {
                p.source
            };
            let (level, after_level) = drawn_u8(before_level, 1, 2);
            let fixed = line.tag == 1 || line.tag == 3 || line.tag == 4;
            &&& q.lines.len() == p.lines.len() + 1
            &&& q.lines.drop_last() == p.lines
            &&& q.waiting is None
            &&& made.user_id == line.user_id
            &&& made.timestamp.epoch == epoch
            &&& made.timestamp.moment() == line.moment
            &&& made.file_size_kb == size
            &&& made.scenario_tag == line.tag
            &&& made.is_anomaly <==> line.tag != 0
            &&& line.tag == 0 && code == 0 ==> made.operation == "view"@
            &&& line.tag == 0 && code == 1 ==> made.operation == "download"@
            &&& line.tag == 0 && code == 2 ==> made.operation == "edit"@
            &&& line.tag == 5 ==> made.operation == "delete"@
            &&& line.tag == 6 && line.op == 0 ==> made.operation == "view"@
            &&& line.tag == 6 && line.op == 2 ==> made.operation == "edit"@
            &&& line.tag != 0 && line.tag != 5 && line.tag != 6 ==> made.operation == "download"@
            &&& line.tag == 3 ==> made.sensitivity == 5
            &&& line.tag == 1 || line.tag == 4 ==> made.sensitivity == 2
            &&& !fixed ==> made.sensitivity == level && q.source == after_level
            &&& fixed ==> q.source == before_level
        }),
{
    let q = accepted(p, epoch, size);
    assert(q.lines.drop_last() =~= p.lines);
}

/// A new data set has no line, no block is entered, and the generator is the one that its seed
/// starts.
pub proof fn law_a_data_set_begins_empty(cfg: GenConfig, today: int)
    ensures
        begun(cfg, today).source == started(cfg.seed),
        begun(cfg, today).lines.len() == 0,
        begun(cfg, today).ready == 0,
        begun(cfg, today).waiting is None,
        begun(cfg, today).cfg == cfg,
        begun(cfg, today).today == today,
{
}

} // verus!
