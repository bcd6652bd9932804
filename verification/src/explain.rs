//! Why a line was reported, and how serious it is.

use vstd::prelude::*;

use crate::calendar::{moment_text, Moment};
use crate::counting::{lemma_picked, picked};
use crate::double::{lemma_order_key, Double};
use crate::features::Enriched;
use crate::fusion::{reported, reported_lines, FinalDet};
use crate::groups::{grouping, lines_of, place_of, UserGroup};
use crate::hybrid::UserBaseline;
use crate::record::LogRecord;
use crate::text::{decimal, decimal_text, two_digit_text, two_digits};

verus! {

/// 8.0: a deviation this large is critical.
pub const Z_CRITICAL: u64 = 0x4020_0000_0000_0000;

/// 5.0: a deviation this large is a high risk.
pub const Z_HIGH: u64 = 0x4014_0000_0000_0000;

/// 500.0: a file larger than this, in kilobytes, is a high risk.
pub const LARGE_KB: u64 = 0x407f_4000_0000_0000;

/// From this level on, a file is sensitive.
pub const SENSITIVE: u8 = 4;

/// 3.0: a size this many times the mean is worth a remark.
pub const RATIO_REMARK: u64 = 0x4008_0000_0000_0000;

/// From this number on, the operations in five minutes are worth a remark.
pub const COUNT_REMARK: usize = 6;

/// How serious a reported line is.
#[derive(Clone, Copy, Debug, PartialEq, Eq, Structural)]
pub enum Risk {
    Medium,
    High,
    Critical,
}

impl Risk {
    /// The more serious, the higher.
    pub open spec fn rank(self) -> int {
        match self {
            Risk::Medium => 0,
            Risk::High => 1,
            Risk::Critical => 2,
        }
    }

    pub open spec fn name(self) -> Seq<char> {
        match self {
            Risk::Medium => "Medium"@,
            Risk::High => "High"@,
            Risk::Critical => "Critical"@,
        }
    }

    pub open spec fn at_most(self, other: Risk) -> bool {
        self.rank() <= other.rank()
    }

    /// The text that a report shows.
    pub fn text(&self) -> (r: &'static str)
        ensures
            r@ == self.name(),
    {
        match self {
            Risk::Medium => "Medium",
            Risk::High => "High",
            Risk::Critical => "Critical",
        }
    }

    /// The more serious of two.
    pub fn worse(self, other: Risk) -> (r: Risk)
        ensures
            r == if self.at_most(other) {
                other
            } else {
                self
            },
    {
        match (self, other) {
            (Risk::Critical, _) => Risk::Critical,
            (Risk::High, Risk::Critical) => Risk::Critical,
            (Risk::High, _) => Risk::High,
            (Risk::Medium, other) => other,
        }
    }
}

/// The risk of a line with this sensitivity, size and deviation.
pub open spec fn risk(sensitivity: u8, size: Double, max_z: Double) -> Risk {
    let sensitive = sensitivity >= SENSITIVE;
    let large = size.above(Double { bits: LARGE_KB });
    if max_z.at_least(Double { bits: Z_CRITICAL }) || sensitive && large {
        Risk::Critical
    } else if max_z.at_least(Double { bits: Z_HIGH }) || sensitive || large {
        Risk::High
    } else {
        Risk::Medium
    }
}

/// How serious a line is.
pub fn risk_level(log: &LogRecord, det: &FinalDet) -> (r: Risk)
    ensures
        r == risk(log.sensitivity, log.file_size_kb, det.max_z),
{
    let sensitive = log.sensitivity >= SENSITIVE;
    let large = log.file_size_kb.gt(Double { bits: LARGE_KB });
    if det.max_z.ge(Double { bits: Z_CRITICAL }) || (sensitive && large) {
        Risk::Critical
    } else if det.max_z.ge(Double { bits: Z_HIGH }) || sensitive || large {
        Risk::High
    } else {
        Risk::Medium
    }
}

/// A line that is more sensitive, larger and deviates more is not less serious.
pub proof fn law_risk_grows(
    sensitivity: u8,
    size: Double,
    max_z: Double,
    more_sensitive: u8,
    larger: Double,
    larger_z: Double,
)
    requires
        sensitivity <= more_sensitive,
        larger.at_least(size),
        larger_z.at_least(max_z),
    ensures
        risk(sensitivity, size, max_z).at_most(risk(more_sensitive, larger, larger_z)),
{
}

/// The name of a feature.
pub open spec fn feature_label(feat: int) -> Seq<char> {
    if feat == 0 {
        "hour(操作时刻)"@
    } else if feat == 1 {
        "log_size(大小对数)"@
    } else if feat == 2 {
        "sensitivity(密级)"@
    } else if feat == 3 {
        "operation(操作编码)"@
    } else if feat == 4 {
        "freq_5min(5分钟频率)"@
    } else if feat == 5 {
        "log_size_ratio(大小偏离度对数)"@
    } else {
        "is_weekend(是否周末)"@
    }
}

/// The name of a feature.
pub fn feature_name(feat: usize) -> (r: &'static str)
    requires
        feat < 7,
    ensures
        r@ == feature_label(feat as int),
{
    if feat == 0 {
        "hour(操作时刻)"
    } else if feat == 1 {
        "log_size(大小对数)"
    } else if feat == 2 {
        "sensitivity(密级)"
    } else if feat == 3 {
        "operation(操作编码)"
    } else if feat == 4 {
        "freq_5min(5分钟频率)"
    } else if feat == 5 {
        "log_size_ratio(大小偏离度对数)"
    } else {
        "is_weekend(是否周末)"
    }
}

/// The feature that deviates most, the last of several that deviate equally. A deviation that
/// is a NaN gives way to the next, and takes the place of the one before it.
pub open spec fn worst_feature(z: Seq<Double>) -> int
    decreases z.len(),
{
    if z.len() <= 1 {
        0
    } else {
        let w = worst_feature(z.drop_last());
        if z[w].absolute().above(z.last().absolute()) {
            w
        } else {
            z.len() - 1
        }
    }
}

proof fn lemma_worst_in_range(z: Seq<Double>)
    requires
        z.len() > 0,
    ensures
        0 <= worst_feature(z) < z.len(),
    decreases z.len(),
{
    if z.len() > 1 {
        lemma_worst_in_range(z.drop_last());
    }
}

/// No feature deviates more than the worst, and those after it deviate less.
pub proof fn law_worst_feature(z: Seq<Double>)
    requires
        z.len() > 0,
        forall|f: int| 0 <= f < z.len() ==> !(#[trigger] z[f]).nan(),
    ensures
        0 <= worst_feature(z) < z.len(),
        forall|f: int|
            0 <= f < z.len() ==> z[worst_feature(z)].absolute().at_least(
                (#[trigger] z[f]).absolute(),
            ),
        forall|f: int|
            worst_feature(z) < f < z.len() ==> z[worst_feature(z)].absolute().above(
                (#[trigger] z[f]).absolute(),
            ),
    decreases z.len(),
{
    if z.len() > 1 {
        let short = z.drop_last();
        assert forall|f: int| 0 <= f < short.len() implies !(#[trigger] short[f]).nan() by {
            assert(short[f] == z[f]);
        }
        law_worst_feature(short);
        assert forall|f: int| 0 <= f < z.len() implies z[worst_feature(z)].absolute().at_least(
            (#[trigger] z[f]).absolute(),
        ) by {
            if f < short.len() {
                assert(short[f] == z[f]);
            }
        }
        assert forall|f: int| worst_feature(z) < f < z.len() implies z[worst_feature(
            z,
        )].absolute().above((#[trigger] z[f]).absolute()) by {
            if f < short.len() {
                assert(short[f] == z[f]);
            }
        }
    }
}

fn find_worst(z: &Vec<Double>) -> (r: usize)
    ensures
        r == worst_feature(z@),
        r == 0 || r < z@.len(),
{
    let mut w: usize = 0;
    if z.len() == 0 {
        return 0;
    }
    proof {
        assert(z@.take(1).len() == 1);
    }
    for f in 1..z.len()
        invariant
            1 <= f <= z@.len(),
            w == worst_feature(z@.take(f as int)),
            w < f,
    {
        assert(z@.take(f + 1).drop_last() =~= z@.take(f as int));
        if !z[w].abs().gt(z[f].abs()) {
            w = f;
        }
    }
    assert(z@.take(z@.len() as int) =~= z@);
    w
}

/// The figures of an explanation, as they are shown.
#[derive(Debug)]
pub struct Figures {
    /// The size of the file, in whole kilobytes.
    pub size: String,
    /// The mean size of the user's files, in whole kilobytes.
    pub mean: String,
    /// The ratio of the size to the mean of the user's earlier files, to two places.
    pub ratio: String,
    /// The largest deviation, to one place.
    pub max_z: String,
}

/// The hour lies outside the user's working hours.
pub open spec fn time_reason(log: LogRecord, base: UserBaseline) -> Seq<Seq<char>> {
    let hour = log.timestamp.hour;
    if hour < base.work_start_hour || hour > base.work_end_hour {
        seq![
            "访问时间异常："@ + two_digits(hour as nat) + ":"@ + two_digits(
                log.timestamp.minute as nat,
            ) + "，偏离该用户正常工作时间（"@ + decimal(base.work_start_hour as nat) + ":00-"@ + decimal(
                (base.work_end_hour + 1) as nat,
            ) + ":00）"@,
        ]
    } else {
        Seq::empty()
    }
}

/// The file is several times as large as the user's earlier files.
pub open spec fn size_reason(e: Enriched, figures: Figures) -> Seq<Seq<char>> {
    if e.ratio.at_least(Double { bits: RATIO_REMARK }) {
        seq![
            "文件大小异常："@ + figures.size@ + "KB，超出该用户历史均值（"@ + figures.mean@ + "KB）约"@
                + figures.ratio@ + "倍"@,
        ]
    } else {
        Seq::empty()
    }
}

/// The user did more in five minutes than ever.
pub open spec fn count_reason(e: Enriched, base: UserBaseline) -> Seq<Seq<char>> {
    if e.count5 >= COUNT_REMARK && e.count5 > base.max_count_5min {
        seq![
            "操作频率异常：该用户在5分钟内第"@ + decimal(e.count5 as nat) + "次操作，历史峰值为"@ + decimal(
                base.max_count_5min as nat,
            ) + "次/5min"@,
        ]
    } else {
        Seq::empty()
    }
}

/// The file is more sensitive than any that the user has touched.
pub open spec fn clearance_reason(log: LogRecord, base: UserBaseline) -> Seq<Seq<char>> {
    if log.sensitivity > base.max_sensitivity {
        seq![
            "敏感数据越权访问：本次文件密级"@ + decimal(log.sensitivity as nat) + "，该用户历史访问最高密级"@ + decimal(
                base.max_sensitivity as nat,
            ) + "（此前从未接触）"@,
        ]
    } else {
        Seq::empty()
    }
}

/// The feature that deviates most.
pub open spec fn deviation_reason(z: Seq<Double>, figures: Figures) -> Seq<char> {
    "多维特征统计偏离："@ + feature_label(worst_feature(z)) + " 的 z-score 达 "@ + figures.max_z@
        + "（阈值 3），显著偏离该用户个体基线"@
}

/// Every reason that applies.
pub open spec fn remarks(
    log: LogRecord,
    e: Enriched,
    base: UserBaseline,
    figures: Figures,
) -> Seq<Seq<char>> {
    time_reason(log, base) + size_reason(e, figures) + count_reason(e, base) + clearance_reason(
        log,
        base,
    )
}

/// Every reason that applies; if none does, the feature that deviates most.
pub open spec fn reasons_for(
    log: LogRecord,
    e: Enriched,
    z: Seq<Double>,
    base: UserBaseline,
    figures: Figures,
) -> Seq<Seq<char>> {
    if remarks(log, e, base, figures).len() > 0 {
        remarks(log, e, base, figures)
    } else {
        seq![deviation_reason(z, figures)]
    }
}

/// The texts of some strings.
pub open spec fn texts(strings: Seq<String>) -> Seq<Seq<char>> {
    Seq::new(strings.len(), |i: int| strings[i]@)
}

/// If no other reason applies, the feature that deviates most is one that has a name.
pub open spec fn nameable(
    log: LogRecord,
    e: Enriched,
    z: Seq<Double>,
    base: UserBaseline,
    figures: Figures,
) -> bool {
    remarks(log, e, base, figures).len() == 0 ==> worst_feature(z) < 7
}

/// With seven features or fewer, the one that deviates most has a name.
pub proof fn law_seven_features_are_named(
    log: LogRecord,
    e: Enriched,
    z: Seq<Double>,
    base: UserBaseline,
    figures: Figures,
)
    requires
        z.len() <= 7,
    ensures
        nameable(log, e, z, base, figures),
{
    if z.len() > 0 {
        lemma_worst_in_range(z);
    }
}

/// Why a line was reported.
pub fn build_reasons(
    log: &LogRecord,
    e: &Enriched,
    det: &FinalDet,
    base: &UserBaseline,
    figures: &Figures,
) -> (r: Vec<String>)
    requires
        nameable(*log, *e, det.z@, *base, *figures),
    ensures
        texts(r@) == reasons_for(*log, *e, det.z@, *base, *figures),
{
    let mut r: Vec<String> = Vec::new();
    let hour = log.timestamp.hour;
    if hour < base.work_start_hour || hour > base.work_end_hour {
        let mut s = "访问时间异常：".to_owned();
        s.append(two_digit_text(hour as u64).as_str());
        s.append(":");
        s.append(two_digit_text(log.timestamp.minute as u64).as_str());
        s.append("，偏离该用户正常工作时间（");
        s.append(decimal_text(base.work_start_hour as u64).as_str());
        s.append(":00-");
        s.append(decimal_text(base.work_end_hour as u64 + 1).as_str());
        s.append(":00）");
        r.push(s);
    }
    assert(texts(r@) =~= time_reason(*log, *base));
    let ghost found = texts(r@);
    if e.ratio.ge(Double { bits: RATIO_REMARK }) {
        let mut s = "文件大小异常：".to_owned();
        s.append(figures.size.as_str());
        s.append("KB，超出该用户历史均值（");
        s.append(figures.mean.as_str());
        s.append("KB）约");
        s.append(figures.ratio.as_str());
        s.append("倍");
        r.push(s);
    }
    assert(texts(r@) =~= found + size_reason(*e, *figures));
    let ghost found = texts(r@);
    if e.count5 >= COUNT_REMARK && e.count5 > base.max_count_5min {
        let mut s = "操作频率异常：该用户在5分钟内第".to_owned();
        s.append(decimal_text(e.count5 as u64).as_str());
        s.append("次操作，历史峰值为");
        s.append(decimal_text(base.max_count_5min as u64).as_str());
        s.append("次/5min");
        r.push(s);
    }
    assert(texts(r@) =~= found + count_reason(*e, *base));
    let ghost found = texts(r@);
    if log.sensitivity > base.max_sensitivity {
        let mut s = "敏感数据越权访问：本次文件密级".to_owned();
        s.append(decimal_text(log.sensitivity as u64).as_str());
        s.append("，该用户历史访问最高密级");
        s.append(decimal_text(base.max_sensitivity as u64).as_str());
        s.append("（此前从未接触）");
        r.push(s);
    }
    assert(texts(r@) =~= found + clearance_reason(*log, *base));
    if r.len() == 0 {
        let worst = find_worst(&det.z);
        let mut s = "多维特征统计偏离：".to_owned();
        s.append(feature_name(worst));
        s.append(" 的 z-score 达 ");
        s.append(figures.max_z.as_str());
        s.append("（阈值 3），显著偏离该用户个体基线");
        r.push(s);
        assert(texts(r@) =~= seq![deviation_reason(det.z@, *figures)]);
    }
    r
}

/// A reported line is never left without a reason.
pub proof fn law_there_is_a_reason(
    log: LogRecord,
    e: Enriched,
    z: Seq<Double>,
    base: UserBaseline,
    figures: Figures,
)
    ensures
        0 < reasons_for(log, e, z, base, figures).len() <= 4,
{
}

/// The explanation of a reported line.
#[derive(Debug)]
pub struct Explanation {
    /// The line.
    pub line: usize,
    pub user_id: u32,
    pub timestamp: String,
    pub operation: String,
    pub sensitivity: u8,
    pub reasons: Vec<String>,
    pub risk_level: Risk,
}

impl Explanation {
    /// The explanation of a line, against the user's baseline.
    pub open spec fn explains(
        self,
        line: int,
        log: LogRecord,
        e: Enriched,
        det: FinalDet,
        base: UserBaseline,
        figures: Figures,
    ) -> bool {
        &&& self.line == line
        &&& self.user_id == log.user_id
        &&& self.timestamp@ == moment_text(log.timestamp.moment())
        &&& self.operation@ == log.operation@
        &&& self.sensitivity == log.sensitivity
        &&& texts(self.reasons@) == reasons_for(log, e, det.z@, base, figures)
        &&& self.risk_level == risk(log.sensitivity, log.file_size_kb, det.max_z)
    }
}

/// What the explanations of a log are made from fits together: every line has features, a
/// verdict and figures, every user's group a baseline, and a line that nothing else is said of
/// deviates most in a feature that has a name.
pub open spec fn explainable(
    logs: Seq<LogRecord>,
    enriched: Seq<Enriched>,
    dets: Seq<FinalDet>,
    groups: Seq<UserGroup>,
    baselines: Seq<UserBaseline>,
    figures: Seq<Figures>,
) -> bool {
    &&& enriched.len() == logs.len()
    &&& dets.len() == logs.len()
    &&& figures.len() == logs.len()
    &&& grouping(logs, groups)
    &&& baselines.len() == groups.len()
    &&& forall|i: int|
        0 <= i < logs.len() && (#[trigger] dets[i]).final_anom ==> logs[i].timestamp.valid()
    &&& forall|i: int, g: int|
        #![trigger dets[i], groups[g]]
        0 <= i < logs.len() && 0 <= g < groups.len() && dets[i].final_anom && groups[g].user
            == logs[i].user_id ==> nameable(
            logs[i],
            enriched[i],
            dets[i].z@,
            baselines[g],
            figures[i],
        )
}

/// Explains the reported lines of a log, in its order, each against the baseline of its user.
pub fn explain_log(
    logs: &Vec<LogRecord>,
    enriched: &Vec<Enriched>,
    dets: &Vec<FinalDet>,
    groups: &Vec<UserGroup>,
    baselines: &Vec<UserBaseline>,
    figures: &Vec<Figures>,
) -> (r: Vec<Explanation>)
    requires
        explainable(logs@, enriched@, dets@, groups@, baselines@, figures@),
    ensures
        r@.len() == picked(dets@.len(), reported(dets@)).len(),
        forall|k: int, g: int|
            #![trigger r@[k], baselines@[g]]
            0 <= k < r@.len() && 0 <= g < groups@.len() && groups@[g].user
                == logs@[picked(dets@.len(), reported(dets@))[k] as int].user_id ==> {
                let i = picked(dets@.len(), reported(dets@))[k] as int;
                r@[k].explains(i, logs@[i], enriched@[i], dets@[i], baselines@[g], figures@[i])
            },
{
    let lines = reported_lines(dets);
    proof {
        assert(dets@.len() == dets.len());
        lemma_picked(dets@.len(), reported(dets@));
    }
    let mut r: Vec<Explanation> = Vec::new();
    for k in 0..lines.len()
        invariant
            explainable(logs@, enriched@, dets@, groups@, baselines@, figures@),
            forall|k: int|
                0 <= k < lines@.len() ==> (#[trigger] lines@[k]) < dets@.len()
                    && dets@[lines@[k] as int].final_anom,
            r@.len() == k,
            forall|q: int, g: int|
                #![trigger r@[q], baselines@[g]]
                0 <= q < k && 0 <= g < groups@.len() && groups@[g].user
                    == logs@[lines@[q] as int].user_id ==> {
                    let i = lines@[q] as int;
                    r@[q].explains(i, logs@[i], enriched@[i], dets@[i], baselines@[g], figures@[i])
                },
    {
        let i = lines[k];
        let log = &logs[i];
        assert(dets@[i as int].final_anom);
        let (g, at) = place_of(logs, groups, i);
        proof {
            let p = |j: int| logs@[j].user_id == groups@[g as int].user;
            assert(logs@.len() == logs.len());
            lemma_picked(logs@.len(), p);
            assert(groups@[g as int].members@ == lines_of(logs@, groups@[g as int].user));
            assert(p(groups@[g as int].members@[at as int] as int));
        }
        let reasons = build_reasons(log, &enriched[i], &dets[i], &baselines[g], &figures[i]);
        let x = Explanation {
            line: i,
            user_id: log.user_id,
            timestamp: log.timestamp.local().shown(),
            operation: log.operation.clone(),
            sensitivity: log.sensitivity,
            reasons,
            risk_level: risk_level(log, &dets[i]),
        };
        proof {
            assert(x.explains(
                i as int,
                logs@[i as int],
                enriched@[i as int],
                dets@[i as int],
                baselines@[g as int],
                figures@[i as int],
            ));
            assert forall|h: int|
                0 <= h < groups@.len() && (#[trigger] groups@[h]).user
                    == logs@[i as int].user_id implies h == g by {
                if h < g {
                    assert(groups@[h].user < groups@[g as int].user);
                }
                if g < h {
                    assert(groups@[g as int].user < groups@[h].user);
                }
            }
        }
        r.push(x);
    }
    r
}

/// The reasons for each line, from the explanations of the reported lines.
pub open spec fn reasons_given(xs: Seq<Explanation>, reasons: Seq<Vec<String>>) -> bool {
    &&& forall|k: int|
        0 <= k < xs.len() ==> texts(reasons[(#[trigger] xs[k]).line as int]@) == texts(
            xs[k].reasons@,
        )
    &&& forall|i: int|
        0 <= i < reasons.len() && !explained(xs, i) ==> (#[trigger] reasons[i])@.len() == 0
}

/// A line is explained.
pub open spec fn explained(xs: Seq<Explanation>, i: int) -> bool {
    exists|k: int| 0 <= k < xs.len() && (#[trigger] xs[k]).line == i
}

fn copy_texts(strings: &Vec<String>) -> (r: Vec<String>)
    ensures
        texts(r@) == texts(strings@),
{
    let mut r: Vec<String> = Vec::new();
    for k in 0..strings.len()
        invariant
            r@.len() == k,
            forall|j: int| 0 <= j < k ==> (#[trigger] r@[j])@ == strings@[j]@,
    {
        r.push(strings[k].clone());
    }
    assert(texts(r@) =~= texts(strings@));
    r
}

/// The reasons for each of `n` lines: those of its explanation, and none if it has no explanation.
pub fn reasons_by_line(n: usize, xs: &Vec<Explanation>) -> (r: Vec<Vec<String>>)
    requires
        forall|k: int| 0 <= k < xs@.len() ==> (#[trigger] xs@[k]).line < n,
        forall|k: int, l: int| 0 <= k < l < xs@.len() ==> xs@[k].line != xs@[l].line,
    ensures
        r@.len() == n,
        reasons_given(xs@, r@),
{
    let mut r: Vec<Vec<String>> = Vec::new();
    for i in 0..n
        invariant
            r@.len() == i,
            forall|j: int| 0 <= j < i ==> (#[trigger] r@[j])@.len() == 0,
    {
        r.push(Vec::new());
    }
    for k in 0..xs.len()
        invariant
            k <= xs@.len(),
            r@.len() == n,
            forall|k: int| 0 <= k < xs@.len() ==> (#[trigger] xs@[k]).line < n,
            forall|k: int, l: int| 0 <= k < l < xs@.len() ==> xs@[k].line != xs@[l].line,
            forall|q: int|
                0 <= q < k ==> texts(r@[(#[trigger] xs@[q]).line as int]@) == texts(
                    xs@[q].reasons@,
                ),
            forall|i: int|
                0 <= i < n && !explained(xs@, i) ==> (#[trigger] r@[i])@.len() == 0,
    {
        let x = &xs[k];
        assert(xs@[k as int].line < n);
        r.set(x.line, copy_texts(&x.reasons));
        proof {
            assert(explained(xs@, xs@[k as int].line as int));
        }
    }
    r
}

/// A deviation of 8.0 or more is critical, and one of 5.0 or more a high risk at least, whatever
/// the sensitivity and the size of the file.
pub proof fn law_deviation_alone_is_a_risk(sensitivity: u8, size: Double, max_z: Double)
    ensures
        max_z.at_least(Double { bits: 0x4020_0000_0000_0000 }) ==> risk(sensitivity, size, max_z)
            == Risk::Critical,
        max_z.at_least(Double { bits: 0x4014_0000_0000_0000 }) ==> risk(sensitivity, size, max_z)
            != Risk::Medium,
{
    lemma_order_key(Double { bits: 0x4020_0000_0000_0000 }, max_z);
}

/// A file of level 4 or higher and of more than 500 kilobytes is critical, and a file with one of
/// the two a high risk at least, however little the line deviates.
pub proof fn law_file_alone_is_a_risk(sensitivity: u8, size: Double, max_z: Double)
    ensures
        sensitivity >= 4 && size.above(Double { bits: 0x407f_4000_0000_0000 }) ==> risk(
            sensitivity,
            size,
            max_z,
        ) == Risk::Critical,
        sensitivity >= 4 || size.above(Double { bits: 0x407f_4000_0000_0000 }) ==> risk(
            sensitivity,
            size,
            max_z,
        ) != Risk::Medium,
{
}

/// Nothing else is critical or a high risk: below 8.0 a critical line has a sensitive and large
/// file, and below 5.0 a line with a file that is neither is a medium risk.
pub proof fn law_risks_have_a_cause(sensitivity: u8, size: Double, max_z: Double)
    ensures
        risk(sensitivity, size, max_z) == Risk::Critical ==> max_z.at_least(
            Double { bits: 0x4020_0000_0000_0000 },
        ) || sensitivity >= 4 && size.above(Double { bits: 0x407f_4000_0000_0000 }),
        risk(sensitivity, size, max_z) == Risk::High ==> max_z.at_least(
            Double { bits: 0x4014_0000_0000_0000 },
        ) || sensitivity >= 4 || size.above(Double { bits: 0x407f_4000_0000_0000 }),
{
}

/// The risks from the least to the most serious: medium, high, critical. Two of the same rank are
/// the same.
pub proof fn law_order_of_the_risks(a: Risk, b: Risk)
    ensures
        Risk::Medium.at_most(a),
        a.at_most(Risk::Critical),
        a.at_most(Risk::Medium) ==> a == Risk::Medium,
        Risk::Critical.at_most(a) ==> a == Risk::Critical,
        Risk::Medium.at_most(Risk::High) && !Risk::High.at_most(Risk::Medium),
        Risk::High.at_most(Risk::Critical) && !Risk::Critical.at_most(Risk::High),
        a.at_most(b) || b.at_most(a),
        a.at_most(b) && b.at_most(a) ==> a == b,
{
}

/// One more feature takes the place of the worst one unless that deviates strictly more.
pub proof fn law_one_more_feature(z: Seq<Double>, v: Double)
    requires
        z.len() > 0,
    ensures
        z[worst_feature(z)].absolute().above(v.absolute()) ==> worst_feature(z.push(v))
            == worst_feature(z),
        !z[worst_feature(z)].absolute().above(v.absolute()) ==> worst_feature(z.push(v)) == z.len(),
        0 <= worst_feature(z) < z.len(),
{
    lemma_worst_in_range(z);
    assert(z.push(v).drop_last() =~= z);
}

/// An hour outside the user's hours is the first reason, a size of three times the mean or more the
/// next, then a sixth or later operation in five minutes beyond the user's most, then a level above
/// the user's highest. Each is given exactly if it holds, and only if none does the feature that
/// deviates most is given instead.
pub proof fn law_which_reasons_are_given(
    log: LogRecord,
    e: Enriched,
    z: Seq<Double>,
    base: UserBaseline,
    figures: Figures,
)
    ensures
        ({
            let r = reasons_for(log, e, z, base, figures);
            let hour = log.timestamp.hour;
            let t: int = if hour < base.work_start_hour || hour > base.work_end_hour {
                1
            } else {
                0
            };
            let s: int = if e.ratio.at_least(Double { bits: 0x4008_0000_0000_0000 }) {
                1
            } else {
                0
            };
            let c: int = if e.count5 >= 6 && e.count5 > base.max_count_5min {
                1
            } else {
                0
            };
            let l: int = if log.sensitivity > base.max_sensitivity {
                1
            } else {
                0
            };
            &&& t + s + c + l > 0 ==> r.len() == t + s + c + l
            &&& t + s + c + l == 0 ==> r.len() == 1
            &&& t == 1 ==> r[0] == "访问时间异常："@ + two_digits(hour as nat) + ":"@ + two_digits(
                log.timestamp.minute as nat,
            ) + "，偏离该用户正常工作时间（"@ + decimal(base.work_start_hour as nat) + ":00-"@ + decimal(
                (base.work_end_hour + 1) as nat,
            ) + ":00）"@
            &&& s == 1 ==> r[t] == "文件大小异常："@ + figures.size@ + "KB，超出该用户历史均值（"@
                + figures.mean@ + "KB）约"@ + figures.ratio@ + "倍"@
            &&& c == 1 ==> r[t + s] == "操作频率异常：该用户在5分钟内第"@ + decimal(e.count5 as nat)
                + "次操作，历史峰值为"@ + decimal(base.max_count_5min as nat) + "次/5min"@
            &&& l == 1 ==> r[t + s + c] == "敏感数据越权访问：本次文件密级"@ + decimal(
                log.sensitivity as nat,
            ) + "，该用户历史访问最高密级"@ + decimal(base.max_sensitivity as nat) + "（此前从未接触）"@
            &&& t + s + c + l == 0 ==> r[0] == "多维特征统计偏离："@ + feature_label(
                worst_feature(z),
            ) + " 的 z-score 达 "@ + figures.max_z@ + "（阈值 3），显著偏离该用户个体基线"@
        }),
{
}

/// An explanation is of its own line: the user, the operation, the level and the time are those of
/// the line, its reasons are the line's, and its risk is critical, high or medium as the line's
/// deviation and file have it.
pub proof fn law_explanation_of_its_line(
    x: Explanation,
    line: int,
    log: LogRecord,
    e: Enriched,
    det: FinalDet,
    base: UserBaseline,
    figures: Figures,
)
    requires
        x.explains(line, log, e, det, base, figures),
    ensures
        x.line == line,
        x.user_id == log.user_id,
        x.operation@ == log.operation@,
        x.sensitivity == log.sensitivity,
        x.timestamp@ == moment_text(
            Moment {
                day: log.timestamp.day,
                hour: log.timestamp.hour,
                minute: log.timestamp.minute,
                second: log.timestamp.second,
            },
        ),
        texts(x.reasons@) == reasons_for(log, e, det.z@, base, figures),
        det.max_z.at_least(Double { bits: 0x4020_0000_0000_0000 }) ==> x.risk_level
            == Risk::Critical,
        log.sensitivity >= 4 && log.file_size_kb.above(Double { bits: 0x407f_4000_0000_0000 })
            ==> x.risk_level == Risk::Critical,
        x.risk_level == Risk::Medium ==> !det.max_z.at_least(
            Double { bits: 0x4014_0000_0000_0000 },
        ) && log.sensitivity < 4 && !log.file_size_kb.above(
            Double { bits: 0x407f_4000_0000_0000 },
        ),
        x.risk_level == Risk::Critical ==> det.max_z.at_least(
            Double { bits: 0x4020_0000_0000_0000 },
        ) || log.sensitivity >= 4 && log.file_size_kb.above(Double { bits: 0x407f_4000_0000_0000 }),
        x.risk_level == Risk::High ==> det.max_z.at_least(
            Double { bits: 0x4014_0000_0000_0000 },
        ) || log.sensitivity >= 4 || log.file_size_kb.above(Double { bits: 0x407f_4000_0000_0000 }),
{
    law_deviation_alone_is_a_risk(log.sensitivity, log.file_size_kb, det.max_z);
}

/// The reasons of a line are those of its explanation, text by text, and a line without an
/// explanation has none.
pub proof fn law_reasons_of_the_lines(
    xs: Seq<Explanation>,
    reasons: Seq<Vec<String>>,
    k: int,
    i: int,
)
    requires
        reasons_given(xs, reasons),
        0 <= k < xs.len(),
        0 <= i < reasons.len(),
    ensures
        reasons[xs[k].line as int]@.len() == xs[k].reasons@.len(),
        forall|q: int|
            0 <= q < xs[k].reasons@.len() ==> (#[trigger] reasons[xs[k].line as int]@[q])@
                == xs[k].reasons@[q]@,
        reasons[i]@.len() > 0 ==> exists|l: int| 0 <= l < xs.len() && (#[trigger] xs[l]).line == i,
{
    let (a, b) = (texts(reasons[xs[k].line as int]@), texts(xs[k].reasons@));
    assert(a == b);
    assert(a.len() == b.len());
    assert forall|q: int| 0 <= q < xs[k].reasons@.len() implies (
    #[trigger] reasons[xs[k].line as int]@[q])@ == xs[k].reasons@[q]@ by {
        assert(a[q] == b[q]);
    }
}

} // verus!
