//! How well the detectors do against the labels of a log.

use vstd::prelude::*;

use crate::counting::{
    count, lemma_count_more, lemma_count_range, lemma_count_same, lemma_count_some, lemma_count_sum,
};
use crate::double::{lemma_order_key, Double};
use crate::fusion::{law_rules_are_ordered, reported, FinalDet, Fusion, Signals};
use crate::hybrid::HybOut;
use crate::record::LogRecord;

verus! {

/// An opinion on the lines that is compared with their labels.
#[derive(Clone, Copy, Debug, PartialEq, Eq, Structural)]
pub enum Opinion {
    /// The final verdict.
    Final,
    /// The forest alone.
    Forest,
    /// What a rule would have decided.
    Rule(Fusion),
}

/// The verdict on a line.
pub open spec fn flagged(det: FinalDet, opinion: Opinion) -> bool {
    match opinion {
        Opinion::Final => det.final_anom,
        Opinion::Forest => det.if_anom,
        Opinion::Rule(fusion) => det.signals().decision(fusion),
    }
}

/// The verdicts on all lines.
pub fn flags_of(dets: &Vec<FinalDet>, opinion: Opinion) -> (r: Vec<bool>)
    ensures
        r@.len() == dets@.len(),
        forall|i: int| 0 <= i < dets@.len() ==> (#[trigger] r@[i]) == flagged(dets@[i], opinion),
{
    let mut r: Vec<bool> = Vec::new();
    for i in 0..dets.len()
        invariant
            r@.len() == i,
            forall|k: int| 0 <= k < i ==> (#[trigger] r@[k]) == flagged(dets@[k], opinion),
    {
        let d = &dets[i];
        let flag = match opinion {
            Opinion::Final => d.final_anom,
            Opinion::Forest => d.if_anom,
            Opinion::Rule(fusion) => {
                let signals = Signals {
                    hyb_anom: d.hyb_anom,
                    if_anom: d.if_anom,
                    dbscan_hit: d.dbscan_hit,
                    max_z: d.max_z,
                    score: d.score,
                };
                signals.decide(fusion)
            },
        };
        r.push(flag);
    }
    r
}

/// The final verdict is that of the rule in use.
pub proof fn law_final_is_the_rule(
    det: FinalDet,
    fusion: Fusion,
    hyb: HybOut,
    raw: Double,
    t: Double,
    score: Double,
)
    requires
        det.follows(fusion, hyb, raw, t, score),
    ensures
        flagged(det, Opinion::Final) == flagged(det, Opinion::Rule(fusion)),
        flagged(det, Opinion::Final) <==> det.pred == -1,
{
}

/// What a detector got right and wrong.
#[derive(Clone, Copy, Debug, PartialEq, Eq, Structural)]
pub struct DetectorMetrics {
    /// Lines reported.
    pub predicted: usize,
    /// Anomalies reported.
    pub true_positives: usize,
    /// Ordinary lines reported.
    pub false_positives: usize,
    /// Anomalies not reported.
    pub false_negatives: usize,
}

/// The lines with a given verdict and a given label.
pub open spec fn outcome(
    flags: Seq<bool>,
    logs: Seq<LogRecord>,
    flag: bool,
    label: bool,
) -> spec_fn(int) -> bool {
    |i: int| flags[i] == flag && logs[i].is_anomaly == label
}

/// Lines are compared as far as there are verdicts.
pub open spec fn compared(flags: Seq<bool>, logs: Seq<LogRecord>) -> nat {
    if flags.len() < logs.len() {
        flags.len()
    } else {
        logs.len()
    }
}

/// How many lines have a given verdict and a given label.
pub open spec fn outcomes(
    flags: Seq<bool>,
    logs: Seq<LogRecord>,
    flag: bool,
    label: bool,
) -> nat {
    count(compared(flags, logs), outcome(flags, logs, flag, label))
}

/// Compares verdicts with the labels.
pub fn metrics_of(flags: &Vec<bool>, logs: &Vec<LogRecord>) -> (r: DetectorMetrics)
    ensures
        r.true_positives == outcomes(flags@, logs@, true, true),
        r.false_positives == outcomes(flags@, logs@, true, false),
        r.false_negatives == outcomes(flags@, logs@, false, true),
        r.predicted == r.true_positives + r.false_positives,
{
    let n = if flags.len() < logs.len() { flags.len() } else { logs.len() };
    let mut tp: usize = 0;
    let mut fp: usize = 0;
    let mut missed: usize = 0;
    for i in 0..n
        invariant
            n == compared(flags@, logs@),
            tp == count(i as nat, outcome(flags@, logs@, true, true)),
            fp == count(i as nat, outcome(flags@, logs@, true, false)),
            missed == count(i as nat, outcome(flags@, logs@, false, true)),
            tp + fp + missed <= i,
    {
        match (flags[i], logs[i].is_anomaly) {
            (true, true) => {
                tp = tp + 1;
            },
            (true, false) => {
                fp = fp + 1;
            },
            (false, true) => {
                missed = missed + 1;
            },
            (false, false) => {},
        }
    }
    DetectorMetrics {
        predicted: tp + fp,
        true_positives: tp,
        false_positives: fp,
        false_negatives: missed,
    }
}

/// The anomalies are those reported and those missed, and the reports are right or wrong.
pub proof fn law_outcomes_add_up(flags: Seq<bool>, logs: Seq<LogRecord>)
    ensures
        outcomes(flags, logs, true, true) + outcomes(flags, logs, false, true) == count(
            compared(flags, logs),
            |i: int| logs[i].is_anomaly,
        ),
        outcomes(flags, logs, true, true) + outcomes(flags, logs, true, false) == count(
            compared(flags, logs),
            |i: int| flags[i],
        ),
{
    let n = compared(flags, logs);
    lemma_count_sum(
        n,
        outcome(flags, logs, true, true),
        outcome(flags, logs, false, true),
        |i: int| logs[i].is_anomaly,
    );
    lemma_count_sum(
        n,
        outcome(flags, logs, true, true),
        outcome(flags, logs, true, false),
        |i: int| flags[i],
    );
}

/// A detector that reports exactly the anomalies makes no mistake, and no other detector does.
pub proof fn law_perfect_detector(flags: Seq<bool>, logs: Seq<LogRecord>)
    ensures
        (outcomes(flags, logs, true, false) == 0 && outcomes(flags, logs, false, true) == 0) <==> (
        forall|i: int|
            0 <= i < compared(flags, logs) ==> (#[trigger] flags[i]) == logs[i].is_anomaly),
{
    let n = compared(flags, logs);
    let wrong = outcome(flags, logs, true, false);
    let missed = outcome(flags, logs, false, true);
    lemma_count_some(n, wrong);
    lemma_count_some(n, missed);
    if outcomes(flags, logs, true, false) == 0 && outcomes(flags, logs, false, true) == 0 {
        assert forall|i: int| 0 <= i < n implies (#[trigger] flags[i]) == logs[i].is_anomaly by {
            assert(!wrong(i) && !missed(i));
        }
    }
}

/// The lines of a scenario.
pub open spec fn of_scenario(logs: Seq<LogRecord>, tag: u8) -> spec_fn(int) -> bool {
    |i: int| logs[i].scenario_tag == tag
}

/// The lines of a scenario that are finally reported.
pub open spec fn reported_of_scenario(
    logs: Seq<LogRecord>,
    dets: Seq<FinalDet>,
    tag: u8,
) -> spec_fn(int) -> bool {
    |i: int| logs[i].scenario_tag == tag && dets[i].final_anom
}

/// How many lines of a scenario are finally reported, and how many there are.
pub fn tag_recall(logs: &Vec<LogRecord>, dets: &Vec<FinalDet>, tag: u8) -> (r: (usize, usize))
    requires
        dets@.len() == logs@.len(),
    ensures
        r.0 == count(logs@.len(), reported_of_scenario(logs@, dets@, tag)),
        r.1 == count(logs@.len(), of_scenario(logs@, tag)),
        r.0 <= r.1,
{
    let n = logs.len();
    let mut hit: usize = 0;
    let mut total: usize = 0;
    for i in 0..n
        invariant
            n == logs@.len(),
            n == dets@.len(),
            hit == count(i as nat, reported_of_scenario(logs@, dets@, tag)),
            total == count(i as nat, of_scenario(logs@, tag)),
            hit <= total <= i,
    {
        if logs[i].scenario_tag == tag {
            total = total + 1;
            if dets[i].final_anom {
                hit = hit + 1;
            }
        }
    }
    (hit, total)
}

/// The largest deviation and the largest forest score among the first `n` lines, as far as they
/// are of a scenario; at least zero.
pub open spec fn strongest(
    logs: Seq<LogRecord>,
    dets: Seq<FinalDet>,
    tag: u8,
    n: nat,
) -> (Double, Double)
    decreases n,
{
    if n == 0 {
        (Double { bits: 0 }, Double { bits: 0 })
    } else {
        let (z, raw) = strongest(logs, dets, tag, (n - 1) as nat);
        if logs[n - 1].scenario_tag == tag {
            (z.larger(dets[n - 1].max_z), raw.larger(dets[n - 1].if_raw))
        } else {
            (z, raw)
        }
    }
}

/// The strongest signals in the lines of a scenario.
pub fn strongest_signals(
    logs: &Vec<LogRecord>,
    dets: &Vec<FinalDet>,
    tag: u8,
) -> (r: (Double, Double))
    requires
        dets@.len() == logs@.len(),
    ensures
        r == strongest(logs@, dets@, tag, logs@.len()),
{
    let n = logs.len();
    let mut z = Double { bits: 0 };
    let mut raw = Double { bits: 0 };
    for i in 0..n
        invariant
            n == logs@.len(),
            n == dets@.len(),
            (z, raw) == strongest(logs@, dets@, tag, i as nat),
    {
        if logs[i].scenario_tag == tag {
            z = z.max(dets[i].max_z);
            raw = raw.max(dets[i].if_raw);
        }
    }
    (z, raw)
}

/// 70.0: from this percentage on, the features express a scenario.
pub const EXPRESSED: u64 = 0x4051_8000_0000_0000;

/// 30.0: from this percentage on, a scenario is found in part.
pub const PARTLY_FOUND: u64 = 0x403e_0000_0000_0000;

/// The word on a scenario of which so many percent were found.
pub open spec fn verdict_on(rate: Double) -> Seq<char> {
    if rate.at_least(Double { bits: EXPRESSED }) {
        "✓特征可表达"@
    } else if rate.at_least(Double { bits: PARTLY_FOUND }) {
        "△部分检出"@
    } else {
        "✗结构性盲区"@
    }
}

/// The word on a scenario of which so many percent were found.
pub fn recall_verdict(rate: Double) -> (r: &'static str)
    ensures
        r@ == verdict_on(rate),
{
    if rate.ge(Double { bits: EXPRESSED }) {
        "✓特征可表达"
    } else if rate.ge(Double { bits: PARTLY_FOUND }) {
        "△部分检出"
    } else {
        "✗结构性盲区"
    }
}

/// A stricter rule reports no more right and no more wrong lines than a more lenient one.
pub proof fn law_stricter_rules_report_less(
    strict: Seq<bool>,
    lenient: Seq<bool>,
    logs: Seq<LogRecord>,
    label: bool,
)
    requires
        strict.len() == lenient.len(),
        forall|i: int| 0 <= i < strict.len() && #[trigger] strict[i] ==> lenient[i],
    ensures
        outcomes(strict, logs, true, label) <= outcomes(lenient, logs, true, label),
        outcomes(lenient, logs, false, label) <= outcomes(strict, logs, false, label),
{
    let n = compared(strict, logs);
    let s = outcome(strict, logs, true, label);
    let l = outcome(lenient, logs, true, label);
    assert forall|i: int| 0 <= i < n && #[trigger] s(i) implies l(i) by {
        assert(strict[i]);
    }
    lemma_count_more(n, s, l);
    let s = outcome(strict, logs, false, label);
    let l = outcome(lenient, logs, false, label);
    assert forall|i: int| 0 <= i < n && #[trigger] l(i) implies s(i) by {
        if strict[i] {
            assert(lenient[i]);
        }
    }
    lemma_count_more(n, l, s);
}

/// The verdicts on all lines, as a sequence.
pub open spec fn flags_in(dets: Seq<FinalDet>, opinion: Opinion) -> Seq<bool> {
    Seq::new(dets.len(), |i: int| flagged(dets[i], opinion))
}

/// The order of the rules: `And` is the strictest and `Or` the most lenient, and `Smart` is
/// stricter than `Boost` and `Hybrid`.
pub open spec fn ordered(strict: Fusion, rule: Fusion) -> bool {
    ||| strict == Fusion::And
    ||| rule == Fusion::Or
    ||| strict == Fusion::Smart && (rule == Fusion::Boost || rule == Fusion::Hybrid)
}

/// The order of the rules is that of their metrics: the more lenient rule reports at least as many
/// anomalies and at least as many ordinary lines, and misses no more.
pub proof fn law_rules_order_the_metrics(
    dets: Seq<FinalDet>,
    logs: Seq<LogRecord>,
    strict: Fusion,
    rule: Fusion,
    label: bool,
)
    requires
        ordered(strict, rule),
    ensures
        outcomes(flags_in(dets, Opinion::Rule(strict)), logs, true, label) <= outcomes(
            flags_in(dets, Opinion::Rule(rule)),
            logs,
            true,
            label,
        ),
        outcomes(flags_in(dets, Opinion::Rule(rule)), logs, false, label) <= outcomes(
            flags_in(dets, Opinion::Rule(strict)),
            logs,
            false,
            label,
        ),
{
    let (a, b) = (flags_in(dets, Opinion::Rule(strict)), flags_in(dets, Opinion::Rule(rule)));
    assert forall|i: int| 0 <= i < a.len() && #[trigger] a[i] implies b[i] by {
        law_rules_are_ordered(dets[i].signals());
    }
    law_stricter_rules_report_less(a, b, logs, label);
}

/// How many lines of the scenarios up to `tag` there are.
pub open spec fn lines_up_to(logs: Seq<LogRecord>, tag: int) -> nat
    decreases tag + 1,
{
    if tag < 0 {
        0
    } else {
        lines_up_to(logs, tag - 1) + count(logs.len(), of_scenario(logs, tag as u8))
    }
}

/// How many of them are finally reported.
pub open spec fn hits_up_to(logs: Seq<LogRecord>, dets: Seq<FinalDet>, tag: int) -> nat
    decreases tag + 1,
{
    if tag < 0 {
        0
    } else {
        hits_up_to(logs, dets, tag - 1) + count(
            logs.len(),
            reported_of_scenario(logs, dets, tag as u8),
        )
    }
}

proof fn lemma_up_to(logs: Seq<LogRecord>, dets: Seq<FinalDet>, tag: int)
    requires
        -1 <= tag <= 8,
    ensures
        lines_up_to(logs, tag) == count(logs.len(), |i: int| logs[i].scenario_tag <= tag),
        hits_up_to(logs, dets, tag) == count(
            logs.len(),
            |i: int| logs[i].scenario_tag <= tag && dets[i].final_anom,
        ),
    decreases tag + 1,
{
    let n = logs.len();
    let lines = |i: int| logs[i].scenario_tag <= tag;
    let hits = |i: int| logs[i].scenario_tag <= tag && dets[i].final_anom;
    if tag < 0 {
        lemma_count_range(n, 0, 0);
        lemma_count_same(n, lines, |i: int| 0 <= i < 0);
        lemma_count_same(n, hits, |i: int| 0 <= i < 0);
    } else {
        lemma_up_to(logs, dets, tag - 1);
        lemma_count_sum(
            n,
            |i: int| logs[i].scenario_tag <= tag - 1,
            of_scenario(logs, tag as u8),
            lines,
        );
        lemma_count_sum(
            n,
            |i: int| logs[i].scenario_tag <= tag - 1 && dets[i].final_anom,
            reported_of_scenario(logs, dets, tag as u8),
            hits,
        );
    }
}

/// The nine scenarios divide the log: their lines add up to all lines, and their reported lines
/// to all that are reported. The reported ordinary lines are the false reports, and those of the
/// other scenarios the anomalies found.
pub proof fn law_scenarios_add_up(logs: Seq<LogRecord>, dets: Seq<FinalDet>)
    requires
        dets.len() == logs.len(),
        forall|i: int| 0 <= i < logs.len() ==> (#[trigger] logs[i]).scenario_tag <= 8,
        forall|i: int|
            0 <= i < logs.len() ==> (#[trigger] logs[i]).is_anomaly == (logs[i].scenario_tag != 0),
    ensures
        lines_up_to(logs, 8) == logs.len(),
        hits_up_to(logs, dets, 8) == count(logs.len(), reported(dets)),
        hits_up_to(logs, dets, 0) == outcomes(
            flags_in(dets, Opinion::Final),
            logs,
            true,
            false,
        ),
        hits_up_to(logs, dets, 8) - hits_up_to(logs, dets, 0) == outcomes(
            flags_in(dets, Opinion::Final),
            logs,
            true,
            true,
        ),
{
    let n = logs.len();
    let flags = flags_in(dets, Opinion::Final);
    lemma_up_to(logs, dets, 8);
    lemma_up_to(logs, dets, 0);
    lemma_count_range(n, 0, n as int);
    lemma_count_same(n, |i: int| logs[i].scenario_tag <= 8, |i: int| 0 <= i < n as int);
    let eight = |i: int| logs[i].scenario_tag <= 8 && dets[i].final_anom;
    let zero = |i: int| logs[i].scenario_tag <= 0 && dets[i].final_anom;
    let wrong = outcome(flags, logs, true, false);
    let right = outcome(flags, logs, true, true);
    lemma_count_same(n, eight, reported(dets));
    assert forall|i: int| 0 <= i < n implies #[trigger] zero(i) == wrong(i) by {
        assert(logs[i].is_anomaly == (logs[i].scenario_tag != 0));
    }
    lemma_count_same(n, zero, wrong);
    assert forall|i: int| 0 <= i < n implies #[trigger] reported(dets)(i) == (right(i)
        || wrong(i)) && !(right(i) && wrong(i)) by {}
    lemma_count_sum(n, right, wrong, reported(dets));
}

/// The opinion of a rule on a line: yes if both engines report it, no if neither does, and
/// otherwise as the rule has it. The final verdict and the forest's are as they stand.
pub proof fn law_opinions(det: FinalDet, fusion: Fusion)
    ensures
        flagged(det, Opinion::Final) == det.final_anom,
        flagged(det, Opinion::Forest) == det.if_anom,
        det.hyb_anom && det.if_anom ==> flagged(det, Opinion::Rule(fusion)),
        !det.hyb_anom && !det.if_anom ==> !flagged(det, Opinion::Rule(fusion)),
        det.hyb_anom && !det.if_anom ==> (flagged(det, Opinion::Rule(fusion)) <==> match fusion {
            Fusion::Hybrid => true,
            Fusion::And => false,
            Fusion::Or => true,
            Fusion::Vote => (Double { bits: 0xbfe0_0000_0000_0000 }).above(det.score),
            Fusion::Smart => det.max_z.at_least(Double { bits: 0x4014_0000_0000_0000 }),
            Fusion::Boost => det.max_z.at_least(Double { bits: 0x4014_0000_0000_0000 }),
        }),
        !det.hyb_anom && det.if_anom ==> (flagged(det, Opinion::Rule(fusion)) <==> match fusion {
            Fusion::Hybrid => false,
            Fusion::And => false,
            Fusion::Or => true,
            Fusion::Vote => (Double { bits: 0xbfe0_0000_0000_0000 }).above(det.score),
            Fusion::Smart => false,
            Fusion::Boost => det.dbscan_hit && det.max_z.above(
                Double { bits: 0x4003_3333_3333_3333 },
            ),
        }),
{
}

/// One more line with a verdict adds one to the outcomes with its verdict and its label, and
/// nothing to the others. Without lines there are no outcomes.
pub proof fn law_one_more_outcome(
    flags: Seq<bool>,
    logs: Seq<LogRecord>,
    verdict: bool,
    log: LogRecord,
    flag: bool,
    label: bool,
)
    requires
        flags.len() == logs.len(),
    ensures
        outcomes(Seq::empty(), Seq::empty(), flag, label) == 0,
        outcomes(flags.push(verdict), logs.push(log), flag, label) == outcomes(
            flags,
            logs,
            flag,
            label,
        ) + if verdict == flag && log.is_anomaly == label {
            1nat
        } else {
            0nat
        },
{
    let n = logs.len();
    let (p, q) = (
        outcome(flags, logs, flag, label),
        outcome(flags.push(verdict), logs.push(log), flag, label),
    );
    assert forall|i: int| 0 <= i < n implies #[trigger] p(i) == q(i) by {
        assert(flags.push(verdict)[i] == flags[i] && logs.push(log)[i] == logs[i]);
    }
    lemma_count_same(n, p, q);
    assert(q(n as int) == (verdict == flag && log.is_anomaly == label));
    assert(count(n + 1, q) == count(n, q) + if q(n as int) {
        1nat
    } else {
        0nat
    });
}

/// Verdicts without a line, and lines without a verdict, do not count.
pub proof fn law_outcomes_are_of_pairs(
    flags: Seq<bool>,
    logs: Seq<LogRecord>,
    more_flags: Seq<bool>,
    more_logs: Seq<LogRecord>,
    flag: bool,
    label: bool,
)
    requires
        flags.len() == logs.len(),
        more_flags.len() == 0 || more_logs.len() == 0,
    ensures
        outcomes(flags + more_flags, logs + more_logs, flag, label) == outcomes(
            flags,
            logs,
            flag,
            label,
        ),
{
    let (p, q) = (
        outcome(flags, logs, flag, label),
        outcome(flags + more_flags, logs + more_logs, flag, label),
    );
    assert forall|i: int| 0 <= i < logs.len() implies #[trigger] p(i) == q(i) by {
        assert((flags + more_flags)[i] == flags[i] && (logs + more_logs)[i] == logs[i]);
    }
    lemma_count_same(logs.len(), p, q);
}

/// The lines of a scenario are those that carry its tag, and its hits those of them that are
/// finally reported.
pub proof fn law_recall_of_a_scenario(logs: Seq<LogRecord>, dets: Seq<FinalDet>, tag: u8)
    requires
        dets.len() == logs.len(),
    ensures
        count(logs.len(), of_scenario(logs, tag)) == count(
            logs.len(),
            |i: int| logs[i].scenario_tag == tag,
        ),
        count(logs.len(), reported_of_scenario(logs, dets, tag)) == count(
            logs.len(),
            |i: int| logs[i].scenario_tag == tag && dets[i].final_anom,
        ),
        (forall|i: int|
            0 <= i < logs.len() && (#[trigger] logs[i]).scenario_tag == tag ==> dets[i].final_anom)
            ==> count(logs.len(), reported_of_scenario(logs, dets, tag)) == count(
            logs.len(),
            of_scenario(logs, tag),
        ),
{
    let n = logs.len();
    lemma_count_same(n, of_scenario(logs, tag), |i: int| logs[i].scenario_tag == tag);
    lemma_count_same(
        n,
        reported_of_scenario(logs, dets, tag),
        |i: int| logs[i].scenario_tag == tag && dets[i].final_anom,
    );
    if forall|i: int|
        0 <= i < logs.len() && (#[trigger] logs[i]).scenario_tag == tag ==> dets[i].final_anom {
        lemma_count_same(n, reported_of_scenario(logs, dets, tag), of_scenario(logs, tag));
    }
}

/// The strongest signals of a scenario are no weaker than those of any of its lines, and each is
/// that of one of its lines, or zero. A NaN is passed over.
pub proof fn law_strongest_signals(logs: Seq<LogRecord>, dets: Seq<FinalDet>, tag: u8, n: nat)
    ensures
        !strongest(logs, dets, tag, n).0.nan(),
        !strongest(logs, dets, tag, n).1.nan(),
        forall|i: int|
            0 <= i < n && (#[trigger] logs[i]).scenario_tag == tag ==> {
                &&& !dets[i].max_z.nan() ==> strongest(logs, dets, tag, n).0.at_least(
                    dets[i].max_z,
                )
                &&& !dets[i].if_raw.nan() ==> strongest(logs, dets, tag, n).1.at_least(
                    dets[i].if_raw,
                )
            },
        strongest(logs, dets, tag, n).0.bits == 0 || exists|i: int|
            0 <= i < n && (#[trigger] logs[i]).scenario_tag == tag && strongest(
                logs,
                dets,
                tag,
                n,
            ).0 == dets[i].max_z,
        strongest(logs, dets, tag, n).1.bits == 0 || exists|i: int|
            0 <= i < n && (#[trigger] logs[i]).scenario_tag == tag && strongest(
                logs,
                dets,
                tag,
                n,
            ).1 == dets[i].if_raw,
    decreases n,
{
    if n > 0 {
        law_strongest_signals(logs, dets, tag, (n - 1) as nat);
        let (z, raw) = strongest(logs, dets, tag, (n - 1) as nat);
        let (z1, raw1) = strongest(logs, dets, tag, n);
        let here = logs[n - 1].scenario_tag == tag;
        if z1 == z && z.bits != 0 {
            let i = choose|i: int|
                0 <= i < n - 1 && (#[trigger] logs[i]).scenario_tag == tag && z == dets[i].max_z;
            assert(logs[i].scenario_tag == tag);
        }
        if raw1 == raw && raw.bits != 0 {
            let i = choose|i: int|
                0 <= i < n - 1 && (#[trigger] logs[i]).scenario_tag == tag && raw == dets[i].if_raw;
            assert(logs[i].scenario_tag == tag);
        }
    }
}

/// From 70 percent on a scenario is expressed by the features, from 30 on it is found in part, and
/// below that it is a blind spot.
pub proof fn law_words_on_recall(rate: Double)
    ensures
        rate.at_least(Double { bits: 0x4051_8000_0000_0000 }) ==> verdict_on(rate) == "✓特征可表达"@,
        rate.at_least(Double { bits: 0x403e_0000_0000_0000 }) && !rate.at_least(
            Double { bits: 0x4051_8000_0000_0000 },
        ) ==> verdict_on(rate) == "△部分检出"@,
        !rate.at_least(Double { bits: 0x403e_0000_0000_0000 }) ==> verdict_on(rate) == "✗结构性盲区"@,
{
    lemma_order_key(
        Double { bits: 0x403e_0000_0000_0000 },
        Double { bits: 0x4051_8000_0000_0000 },
    );
}

} // verus!
