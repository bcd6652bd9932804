//! How the verdicts of the two engines are combined.

use vstd::prelude::*;

use crate::counting::{
    count, lemma_count_more, lemma_count_permuted, lemma_count_range, lemma_count_same,
    lemma_picked, picked,
};
use crate::double::{copy_doubles, lemma_order_key, Double};
use crate::hybrid::HybOut;
use crate::order::{before, double_keys, sort_doubles, stable_sorting, taken};
use crate::text::{lowered, lowered_char, raised, raised_char, same_text};

verus! {

/// A rule that combines the verdicts of the two engines.
#[derive(Clone, Copy, Debug, PartialEq, Eq, Structural)]
pub enum Fusion {
    /// The hybrid detector decides; the forest is shown beside it.
    Hybrid,
    /// Both engines must agree.
    And,
    /// Either engine suffices.
    Or,
    /// Two of three signals: the hybrid detector, the forest, a combined score below -0.5.
    Vote,
    /// The hybrid detector, backed by the forest or by a strong deviation of its own.
    Smart,
    /// `Smart`, and also what the forest reports on a point off the clusters that deviates.
    Boost,
}

/// The rule in use unless another is asked for.
pub const DEFAULT_FUSION: Fusion = Fusion::Hybrid;

/// The rule with the given name, in lower case.
pub open spec fn fusion_named(name: Seq<char>) -> Option<Fusion> {
    if name == "hybrid"@ {
        Some(Fusion::Hybrid)
    } else if name == "and"@ {
        Some(Fusion::And)
    } else if name == "or"@ {
        Some(Fusion::Or)
    } else if name == "vote"@ {
        Some(Fusion::Vote)
    } else if name == "smart"@ {
        Some(Fusion::Smart)
    } else if name == "boost"@ {
        Some(Fusion::Boost)
    } else {
        None
    }
}

/// The text that a report shows for a rule.
pub open spec fn fusion_label(fusion: Fusion) -> Seq<char> {
    match fusion {
        Fusion::Hybrid => "HYBRID-PRIMARY（混合主判定，IF交叉验证）"@,
        Fusion::And => "AND（双引擎交集，误报优先）"@,
        Fusion::Or => "OR（并集，召回优先）"@,
        Fusion::Vote => "VOTE（三信号取二）"@,
        Fusion::Smart => "SMART（弱偏离需IF共识）"@,
        Fusion::Boost => "BOOST（SMART+IF补报）"@,
    }
}

impl Fusion {
    /// The rule with the given name, upper or lower case.
    pub fn parse(s: &str) -> (r: Option<Fusion>)
        ensures
            r == fusion_named(lowered(s@)),
    {
        let name = s.to_ascii_lowercase();
        if same_text(name.as_str(), "hybrid") {
            Some(Fusion::Hybrid)
        } else if same_text(name.as_str(), "and") {
            Some(Fusion::And)
        } else if same_text(name.as_str(), "or") {
            Some(Fusion::Or)
        } else if same_text(name.as_str(), "vote") {
            Some(Fusion::Vote)
        } else if same_text(name.as_str(), "smart") {
            Some(Fusion::Smart)
        } else if same_text(name.as_str(), "boost") {
            Some(Fusion::Boost)
        } else {
            None
        }
    }

    /// The text that a report shows for the rule.
    pub fn label(&self) -> (r: &'static str)
        ensures
            r@ == fusion_label(*self),
    {
        match self {
            Fusion::Hybrid => "HYBRID-PRIMARY（混合主判定，IF交叉验证）",
            Fusion::And => "AND（双引擎交集，误报优先）",
            Fusion::Or => "OR（并集，召回优先）",
            Fusion::Vote => "VOTE（三信号取二）",
            Fusion::Smart => "SMART（弱偏离需IF共识）",
            Fusion::Boost => "BOOST（SMART+IF补报）",
        }
    }
}

/// Two texts that differ in upper and lower case only, letter by letter, name the same rule or
/// none. A text in upper case, and one in lower case, names the rule that the text names.
pub proof fn law_case_does_not_matter(s: Seq<char>, t: Seq<char>)
    requires
        s.len() == t.len(),
        forall|i: int|
            0 <= i < s.len() ==> (#[trigger] s[i] == t[i] || s[i] == raised_char(t[i]) || s[i]
                == lowered_char(t[i])),
    ensures
        fusion_named(lowered(s)) == fusion_named(lowered(t)),
        fusion_named(lowered(raised(s))) == fusion_named(lowered(s)),
        fusion_named(lowered(lowered(s))) == fusion_named(lowered(s)),
{
    assert forall|i: int| 0 <= i < s.len() implies #[trigger] lowered(s)[i] == lowered(t)[i] by {
        assert(s[i] == t[i] || s[i] == raised_char(t[i]) || s[i] == lowered_char(t[i]));
    }
    assert(lowered(s) =~= lowered(t));
    assert(lowered(raised(s)) =~= lowered(s));
    assert(lowered(lowered(s)) =~= lowered(s));
}

/// 5.0: a deviation this large needs no second engine.
pub const Z_STRONG: u64 = 0x4014_0000_0000_0000;

/// 2.4: what the forest reports is taken up if the deviation is larger.
pub const Z_BOOST_MIN: u64 = 0x4003_3333_3333_3333;

/// -0.5: a combined score below it is a vote.
pub const VOTE_SCORE: u64 = 0xbfe0_0000_0000_0000;

/// What the engines say of a line.
#[derive(Clone, Copy, Debug, PartialEq, Eq, Structural)]
pub struct Signals {
    /// The verdict of the hybrid detector.
    pub hyb_anom: bool,
    /// The verdict of the forest.
    pub if_anom: bool,
    /// The line is off the clusters.
    pub dbscan_hit: bool,
    pub max_z: Double,
    /// The combined score, between -1 and 1; the lower, the more anomalous.
    pub score: Double,
}

impl Signals {
    /// The number of votes.
    pub open spec fn votes(self) -> int {
        (if self.hyb_anom {
            1int
        } else {
            0
        }) + (if self.if_anom {
            1int
        } else {
            0
        }) + (if (Double { bits: VOTE_SCORE }).above(self.score) {
            1int
        } else {
            0
        })
    }

    /// The hybrid detector, backed by the forest or by a strong deviation.
    pub open spec fn backed(self) -> bool {
        self.hyb_anom && (self.if_anom || self.max_z.at_least(Double { bits: Z_STRONG }))
    }

    /// The decision of a rule.
    pub open spec fn decision(self, fusion: Fusion) -> bool {
        match fusion {
            Fusion::Hybrid => self.hyb_anom,
            Fusion::And => self.hyb_anom && self.if_anom,
            Fusion::Or => self.hyb_anom || self.if_anom,
            Fusion::Vote => self.votes() >= 2,
            Fusion::Smart => self.backed(),
            Fusion::Boost => self.backed() || (self.if_anom && self.dbscan_hit && self.max_z.above(
                Double { bits: Z_BOOST_MIN },
            )),
        }
    }

    /// Decides by a rule.
    pub fn decide(&self, fusion: Fusion) -> (r: bool)
        ensures
            r == self.decision(fusion),
    {
        match fusion {
            Fusion::Hybrid => self.hyb_anom,
            Fusion::And => self.hyb_anom && self.if_anom,
            Fusion::Or => self.hyb_anom || self.if_anom,
            Fusion::Vote => {
                let low = (Double { bits: VOTE_SCORE }).gt(self.score);
                (self.hyb_anom && self.if_anom) || (self.hyb_anom && low) || (self.if_anom && low)
            },
            Fusion::Smart => self.hyb_anom && (self.if_anom || self.max_z.ge(
                Double { bits: Z_STRONG },
            )),
            Fusion::Boost => (self.hyb_anom && (self.if_anom || self.max_z.ge(
                Double { bits: Z_STRONG },
            ))) || (self.if_anom && self.dbscan_hit && self.max_z.gt(Double { bits: Z_BOOST_MIN })),
        }
    }
}

/// The rules, from the strictest to the most lenient: what `And` reports `Smart` reports, what
/// `Smart` reports `Boost` reports, and what `Boost` reports `Or` reports. `Hybrid` lies between
/// `Smart` and `Or`, and `Vote` between `And` and `Or`.
pub proof fn law_rules_are_ordered(s: Signals)
    ensures
        s.decision(Fusion::And) ==> s.decision(Fusion::Smart),
        s.decision(Fusion::Smart) ==> s.decision(Fusion::Boost),
        s.decision(Fusion::Boost) ==> s.decision(Fusion::Or),
        s.decision(Fusion::Smart) ==> s.decision(Fusion::Hybrid),
        s.decision(Fusion::Hybrid) ==> s.decision(Fusion::Or),
        s.decision(Fusion::And) ==> s.decision(Fusion::Vote),
        s.decision(Fusion::Vote) ==> s.decision(Fusion::Or),
{
}

/// Under `Smart` a strong deviation stands alone, and a weak one needs both engines.
pub proof fn law_weak_deviations_need_both(s: Signals)
    ensures
        s.max_z.at_least(Double { bits: Z_STRONG }) ==> s.decision(Fusion::Smart) == s.decision(
            Fusion::Hybrid,
        ),
        !s.max_z.at_least(Double { bits: Z_STRONG }) ==> s.decision(Fusion::Smart) == s.decision(
            Fusion::And,
        ),
{
}

/// A vote needs an engine: a low score alone reports nothing.
pub proof fn law_score_alone_is_no_majority(s: Signals)
    requires
        !s.hyb_anom,
        !s.if_anom,
    ensures
        forall|fusion: Fusion| !s.decision(fusion),
{
}

/// The share of lines that the forest may report is one twentieth: its threshold is the score
/// at this place of the sorted scores.
pub open spec fn threshold_place(n: nat) -> nat {
    19 * n / 20
}

/// `t` is the score at the threshold's place.
pub open spec fn forest_threshold(raw: Seq<Double>, t: Double) -> bool {
    exists|order: Seq<usize>| #[trigger]
        stable_sorting(double_keys(raw), order) && t == taken(raw, order)[threshold_place(
            raw.len(),
        ) as int]
}

/// The threshold that a forest score must exceed to be reported.
pub fn score_threshold(raw: &Vec<Double>) -> (t: Double)
    requires
        raw@.len() > 0,
    ensures
        forest_threshold(raw@, t),
{
    let n = raw.len();
    let mut sorted = copy_doubles(raw);
    sort_doubles(&mut sorted);
    let rest = if n % 20 == 0 { n / 20 } else { n / 20 + 1 };
    sorted[n - rest]
}

/// The forest reports less than one line in twenty, rounded up.
pub proof fn law_forest_reports_few(raw: Seq<Double>, t: Double)
    requires
        0 < raw.len() <= usize::MAX,
        forest_threshold(raw, t),
    ensures
        count(raw.len(), |i: int| raw[i].above(t)) < (raw.len() + 19) / 20,
{
    let n = raw.len();
    let keys = double_keys(raw);
    let order = choose|order: Seq<usize>| #[trigger]
        stable_sorting(keys, order) && t == taken(raw, order)[threshold_place(n) as int];
    let place = threshold_place(n) as int;
    let p = |i: int| raw[i].above(t);
    let q = |i: int| p(order[i] as int);
    let late = |i: int| place + 1 <= i < n;
    assert forall|i: int, j: int| 0 <= i < j < n implies order[i] != order[j] by {
        assert(before(keys, order[i] as int, order[j] as int));
    }
    assert forall|i: int| 0 <= i < n && #[trigger] q(i) implies late(i) by {
        lemma_order_key(t, raw[order[i] as int]);
        if i < place {
            assert(before(keys, order[i] as int, order[place] as int));
        }
    }
    lemma_count_permuted(n, order, p);
    lemma_count_same(n, q, |i: int| p(order[i] as int));
    lemma_count_more(n, q, late);
    lemma_count_range(n, place + 1, n as int);
}

/// The final verdict on a line, with what led to it.
#[derive(Debug)]
pub struct FinalDet {
    pub hyb_anom: bool,
    pub dbscan_hit: bool,
    pub if_anom: bool,
    pub if_raw: Double,
    pub final_anom: bool,
    /// -1 for an anomaly, 1 for an ordinary line.
    pub pred: i8,
    pub score: Double,
    pub max_z: Double,
    pub dbscan_label: u32,
    pub z: Vec<Double>,
}

impl FinalDet {
    pub open spec fn signals(self) -> Signals {
        Signals {
            hyb_anom: self.hyb_anom,
            if_anom: self.if_anom,
            dbscan_hit: self.dbscan_hit,
            max_z: self.max_z,
            score: self.score,
        }
    }

    /// The verdict that a rule gives on what the engines found, with the forest's threshold at
    /// `t`.
    pub open spec fn follows(
        self,
        fusion: Fusion,
        hyb: HybOut,
        raw: Double,
        t: Double,
        score: Double,
    ) -> bool {
        &&& self.hyb_anom == hyb.anom
        &&& self.dbscan_hit == hyb.dbscan_hit
        &&& self.if_anom == raw.above(t)
        &&& self.if_raw == raw
        &&& self.score == score
        &&& self.max_z == hyb.max_z
        &&& self.dbscan_label == hyb.dbscan_label
        &&& self.z@ == hyb.z@
        &&& self.final_anom == self.signals().decision(fusion)
        &&& self.pred == if self.final_anom {
            -1
        } else {
            1
        }
    }
}

/// The final verdicts, from the hybrid detector's, the forest's scores and the combined scores.
pub fn fuse(
    fusion: Fusion,
    hyb: &Vec<HybOut>,
    raw: &Vec<Double>,
    scores: &Vec<Double>,
) -> (r: Vec<FinalDet>)
    requires
        raw@.len() > 0,
        hyb@.len() == raw@.len(),
        scores@.len() == raw@.len(),
    ensures
        r@.len() == raw@.len(),
        exists|t: Double| #[trigger]
            forest_threshold(raw@, t) && forall|i: int|
                0 <= i < r@.len() ==> (#[trigger] r@[i]).follows(
                    fusion,
                    hyb@[i],
                    raw@[i],
                    t,
                    scores@[i],
                ),
{
    let t = score_threshold(raw);
    let n = raw.len();
    let mut r: Vec<FinalDet> = Vec::new();
    for i in 0..n
        invariant
            n == raw@.len(),
            n == scores@.len(),
            n == hyb@.len(),
            r@.len() == i,
            forall|k: int|
                0 <= k < i ==> (#[trigger] r@[k]).follows(
                    fusion,
                    hyb@[k],
                    raw@[k],
                    t,
                    scores@[k],
                ),
    {
        let h = &hyb[i];
        let if_anom = raw[i].gt(t);
        let signals = Signals {
            hyb_anom: h.anom,
            if_anom,
            dbscan_hit: h.dbscan_hit,
            max_z: h.max_z,
            score: scores[i],
        };
        let final_anom = signals.decide(fusion);
        r.push(
            FinalDet {
                hyb_anom: h.anom,
                dbscan_hit: h.dbscan_hit,
                if_anom,
                if_raw: raw[i],
                final_anom,
                pred: if final_anom {
                    -1
                } else {
                    1
                },
                score: scores[i],
                max_z: h.max_z,
                dbscan_label: h.dbscan_label,
                z: copy_doubles(&h.z),
            },
        );
    }
    assert(forest_threshold(raw@, t));
    r
}

/// The lines that are finally reported.
pub open spec fn reported(dets: Seq<FinalDet>) -> spec_fn(int) -> bool {
    |i: int| dets[i].final_anom
}

/// The lines that are finally reported, in the order of the log.
pub fn reported_lines(dets: &Vec<FinalDet>) -> (r: Vec<usize>)
    ensures
        r@ == picked(dets@.len(), reported(dets@)),
{
    let ghost p = reported(dets@);
    let n = dets.len();
    let mut r: Vec<usize> = Vec::new();
    for i in 0..n
        invariant
            n == dets@.len(),
            p == reported(dets@),
            r@ == picked(i as nat, p),
    {
        if dets[i].final_anom {
            r.push(i);
        }
    }
    r
}

/// What is listed for the reported lines in turn belongs to each of them exactly once: every
/// reported line has one place in the list, and no other line has any.
pub proof fn law_reported_lines_align(dets: Seq<FinalDet>, i: int)
    requires
        dets.len() <= usize::MAX,
        0 <= i < dets.len(),
    ensures
        dets[i].final_anom <==> picked(dets.len(), reported(dets)).contains(i as usize),
        forall|j: int, k: int|
            0 <= j < k < picked(dets.len(), reported(dets)).len() ==> picked(
                dets.len(),
                reported(dets),
            )[j] < picked(dets.len(), reported(dets))[k],
{
    lemma_picked(dets.len(), reported(dets));
    if dets[i].final_anom {
        assert(reported(dets)(i));
    }
}

/// A line that both engines report is reported under every rule, whatever the other signals say.
pub proof fn law_agreement_is_reported(s: Signals, fusion: Fusion)
    requires
        s.hyb_anom,
        s.if_anom,
    ensures
        s.decision(fusion),
{
}

/// A line that the hybrid detector alone reports is reported under `Hybrid` and `Or` and not under
/// `And`; under `Smart` and `Boost` if it deviates by 5.0 or more, and under `Vote` if its score
/// lies below -0.5.
pub proof fn law_hybrid_detector_alone(s: Signals)
    requires
        s.hyb_anom,
        !s.if_anom,
    ensures
        s.decision(Fusion::Hybrid),
        s.decision(Fusion::Or),
        !s.decision(Fusion::And),
        s.decision(Fusion::Smart) <==> s.max_z.at_least(Double { bits: 0x4014_0000_0000_0000 }),
        s.decision(Fusion::Boost) <==> s.max_z.at_least(Double { bits: 0x4014_0000_0000_0000 }),
        s.decision(Fusion::Vote) <==> (Double { bits: 0xbfe0_0000_0000_0000 }).above(s.score),
{
}

/// A line that the forest alone reports is reported under `Or` and not under `And`, `Hybrid` and
/// `Smart`; under `Boost` if it is off the clusters and deviates by more than 2.4, and under `Vote`
/// if its score lies below -0.5.
pub proof fn law_forest_alone(s: Signals)
    requires
        !s.hyb_anom,
        s.if_anom,
    ensures
        s.decision(Fusion::Or),
        !s.decision(Fusion::And),
        !s.decision(Fusion::Hybrid),
        !s.decision(Fusion::Smart),
        s.decision(Fusion::Boost) <==> s.dbscan_hit && s.max_z.above(
            Double { bits: 0x4003_3333_3333_3333 },
        ),
        s.decision(Fusion::Vote) <==> (Double { bits: 0xbfe0_0000_0000_0000 }).above(s.score),
{
}

/// `Hybrid` looks at the hybrid detector only, and `And` and `Or` at the two engines only: lines
/// on which these agree are decided alike, whatever else is known of them.
pub proof fn law_rules_look_at_their_signals(s: Signals, t: Signals)
    requires
        s.hyb_anom == t.hyb_anom,
    ensures
        s.decision(Fusion::Hybrid) == t.decision(Fusion::Hybrid),
        s.if_anom == t.if_anom ==> s.decision(Fusion::And) == t.decision(Fusion::And),
        s.if_anom == t.if_anom ==> s.decision(Fusion::Or) == t.decision(Fusion::Or),
{
}

/// A rule is named by one lower-case word, and no other text names a rule.
pub proof fn law_names_of_the_rules(name: Seq<char>)
    ensures
        fusion_named(name) == Some(Fusion::Hybrid) ==> name == "hybrid"@,
        fusion_named(name) == Some(Fusion::And) ==> name == "and"@,
        fusion_named(name) == Some(Fusion::Or) ==> name == "or"@,
        fusion_named(name) == Some(Fusion::Vote) ==> name == "vote"@,
        fusion_named(name) == Some(Fusion::Smart) ==> name == "smart"@,
        fusion_named(name) == Some(Fusion::Boost) ==> name == "boost"@,
        fusion_named(name) is None ==> name != "hybrid"@ && name != "and"@ && name != "or"@ && name
            != "vote"@ && name != "smart"@ && name != "boost"@,
{
}

proof fn lemma_threshold_place(raw: Seq<Double>, order: Seq<usize>, t: Double)
    requires
        0 < raw.len() <= usize::MAX,
        stable_sorting(double_keys(raw), order),
        t == taken(raw, order)[threshold_place(raw.len()) as int],
    ensures
        raw.contains(t),
        20 * count(raw.len(), |i: int| raw[i].value() < t.value()) <= 19 * raw.len(),
        20 * count(raw.len(), |i: int| raw[i].value() >= t.value()) >= raw.len(),
{
    let n = raw.len();
    let keys = double_keys(raw);
    let place = threshold_place(n) as int;
    assert(raw[order[place] as int] == t);
    let under = |i: int| raw[i].value() < t.value();
    let over = |i: int| raw[i].value() >= t.value();
    let early = |i: int| 0 <= i < place;
    let late = |i: int| place <= i < n;
    assert forall|i: int, j: int| 0 <= i < j < n implies order[i] != order[j] by {
        assert(before(keys, order[i] as int, order[j] as int));
    }
    assert forall|i: int| 0 <= i < n && #[trigger] late(i) implies over(order[i] as int) by {
        lemma_order_key(t, raw[order[i] as int]);
        lemma_order_key(raw[order[i] as int], t);
        if i > place {
            assert(before(keys, order[place] as int, order[i] as int));
        }
    }
    assert forall|i: int| 0 <= i < n && under(order[i] as int) implies #[trigger] early(i) by {
        if i >= place {
            assert(late(i));
        }
    }
    lemma_count_permuted(n, order, under);
    lemma_count_permuted(n, order, over);
    let q = |i: int| under(order[i] as int);
    assert forall|i: int| 0 <= i < n && #[trigger] q(i) implies early(i) by {}
    lemma_count_more(n, q, early);
    lemma_count_more(n, late, |i: int| over(order[i] as int));
    lemma_count_range(n, 0, place);
    lemma_count_range(n, place, n as int);
}

/// The threshold of the forest is one of the scores: at most nineteen in twenty lie below it, at
/// least one in twenty does not, and fewer than one in twenty, rounded up, exceed it.
pub proof fn law_forest_threshold(raw: Seq<Double>, t: Double)
    requires
        0 < raw.len() <= usize::MAX,
        forest_threshold(raw, t),
    ensures
        raw.contains(t),
        20 * count(raw.len(), |i: int| raw[i].value() < t.value()) <= 19 * raw.len(),
        20 * count(raw.len(), |i: int| raw[i].value() >= t.value()) >= raw.len(),
        20 * count(raw.len(), |i: int| raw[i].above(t)) < raw.len() + 19,
{
    let order = choose|order: Seq<usize>| #[trigger]
        stable_sorting(double_keys(raw), order) && t == taken(raw, order)[threshold_place(
            raw.len(),
        ) as int];
    lemma_threshold_place(raw, order, t);
    law_forest_reports_few(raw, t);
}

/// The final verdict on a line, told by what the engines found: reported if both report it, not if
/// neither does, and otherwise as the rule has it. It carries what the engines found.
pub proof fn law_final_verdict(
    det: FinalDet,
    fusion: Fusion,
    hyb: HybOut,
    raw: Double,
    t: Double,
    score: Double,
)
    requires
        det.follows(fusion, hyb, raw, t, score),
    ensures
        hyb.anom && raw.above(t) ==> det.final_anom,
        !hyb.anom && !raw.above(t) ==> !det.final_anom,
        hyb.anom && !raw.above(t) ==> (det.final_anom <==> match fusion {
            Fusion::Hybrid => true,
            Fusion::And => false,
            Fusion::Or => true,
            Fusion::Vote => (Double { bits: 0xbfe0_0000_0000_0000 }).above(score),
            Fusion::Smart => hyb.max_z.at_least(Double { bits: 0x4014_0000_0000_0000 }),
            Fusion::Boost => hyb.max_z.at_least(Double { bits: 0x4014_0000_0000_0000 }),
        }),
        !hyb.anom && raw.above(t) ==> (det.final_anom <==> match fusion {
            Fusion::Hybrid => false,
            Fusion::And => false,
            Fusion::Or => true,
            Fusion::Vote => (Double { bits: 0xbfe0_0000_0000_0000 }).above(score),
            Fusion::Smart => false,
            Fusion::Boost => hyb.dbscan_hit && hyb.max_z.above(
                Double { bits: 0x4003_3333_3333_3333 },
            ),
        }),
        det.pred == -1 <==> det.final_anom,
        det.pred == 1 <==> !det.final_anom,
        det.hyb_anom == hyb.anom,
        det.if_anom == raw.above(t),
        det.if_raw == raw,
        det.score == score,
        det.dbscan_hit == hyb.dbscan_hit,
        det.max_z == hyb.max_z,
        det.dbscan_label == hyb.dbscan_label,
        det.z@ == hyb.z@,
{
}

} // verus!
