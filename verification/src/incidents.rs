//! Reported lines gathered into incidents: each incident holds the reported lines that belong
//! together.

use vstd::prelude::*;

use crate::calendar::moment_text;
use crate::counting::{lemma_picked, picked};
use crate::double::Double;
use crate::explain::{
    law_deviation_alone_is_a_risk, law_file_alone_is_a_risk, law_risks_have_a_cause, risk,
    risk_level, texts, Risk,
};
use crate::fusion::{reported, reported_lines, FinalDet};
use crate::linking::{
    divide, divided, in_some_part, law_a_part_has_one_user, law_near_lines_share_a_part, lists,
};
use crate::record::LogRecord;
use crate::text::{decimal, decimal_text, same_text, signed_decimal, signed_text};

verus! {

/// An incident gives at most this many reasons of its lines.
pub const MAX_REASONS: usize = 6;

/// No time stamp of the calendar lies further from the start of 1970, in seconds.
pub const LAST_EPOCH: i64 = 9_000_000_000_000;

/// The most serious risk of some lines, at least `Medium`.
pub open spec fn worst_risk(
    logs: Seq<LogRecord>,
    dets: Seq<FinalDet>,
    members: Seq<usize>,
) -> Risk
    decreases members.len(),
{
    if members.len() == 0 {
        Risk::Medium
    } else {
        let before = worst_risk(logs, dets, members.drop_last());
        let i = members.last() as int;
        let own = risk(logs[i].sensitivity, logs[i].file_size_kb, dets[i].max_z);
        if before.at_most(own) {
            own
        } else {
            before
        }
    }
}

/// Adds reasons that are not there yet, as long as there is room.
pub open spec fn with_reasons(given: Seq<Seq<char>>, more: Seq<Seq<char>>) -> Seq<Seq<char>>
    decreases more.len(),
{
    if more.len() == 0 {
        given
    } else {
        let before = with_reasons(given, more.drop_last());
        if before.contains(more.last()) || before.len() >= MAX_REASONS {
            before
        } else {
            before.push(more.last())
        }
    }
}

/// The reasons of some lines, each once, up to the most that an incident gives.
pub open spec fn merged_reasons(reasons: Seq<Vec<String>>, members: Seq<usize>) -> Seq<Seq<char>>
    decreases members.len(),
{
    if members.len() == 0 {
        Seq::empty()
    } else {
        with_reasons(
            merged_reasons(reasons, members.drop_last()),
            texts(reasons[members.last() as int]@),
        )
    }
}

/// The cluster as an incident names it.
pub open spec fn cluster_name(label: u32) -> Seq<char> {
    if label == 0 {
        "噪声"@
    } else {
        "#"@ + decimal(label as nat)
    }
}

/// The first reason of an incident with several lines.
pub open spec fn batch_reason(user: u32, seconds: int, events: nat, label: u32) -> Seq<char> {
    "批量行为事件：用户"@ + decimal(user as nat) + "在"@ + signed_decimal(seconds) + "秒窗口内连续产生"@
        + decimal(events) + "条同模式异常（DBSCAN同簇"@ + cluster_name(label) + "）"@
}

/// Reported lines that belong together.
#[derive(Debug)]
pub struct Incident {
    pub user_id: u32,
    /// The time of the first line.
    pub start: String,
    /// The time of the last line.
    pub end: String,
    pub duration_s: i64,
    pub event_count: usize,
    /// The lines.
    pub members: Vec<usize>,
    pub max_risk: Risk,
    pub reasons: Vec<String>,
}

impl Incident {
    /// The incident of some lines.
    pub open spec fn describes(
        self,
        logs: Seq<LogRecord>,
        dets: Seq<FinalDet>,
        reasons: Seq<Vec<String>>,
        members: Seq<usize>,
    ) -> bool {
        let first = logs[members[0] as int];
        let last = logs[members.last() as int];
        let own = merged_reasons(reasons, members);
        &&& self.user_id == first.user_id
        &&& self.start@ == moment_text(first.timestamp.moment())
        &&& self.end@ == moment_text(last.timestamp.moment())
        &&& self.duration_s == last.timestamp.epoch - first.timestamp.epoch
        &&& self.event_count == members.len()
        &&& self.members@ == members
        &&& self.max_risk == worst_risk(logs, dets, members)
        &&& texts(self.reasons@) == if members.len() > 1 {
            seq![
                batch_reason(
                    first.user_id,
                    last.timestamp.epoch - first.timestamp.epoch,
                    members.len(),
                    dets[members[0] as int].dbscan_label,
                ),
            ] + own
        } else {
            own
        }
    }
}

fn has_text(strings: &Vec<String>, s: &String) -> (r: bool)
    ensures
        r == texts(strings@).contains(s@),
{
    for i in 0..strings.len()
        invariant
            forall|k: int| 0 <= k < i ==> (#[trigger] strings@[k])@ != s@,
    {
        if same_text(strings[i].as_str(), s.as_str()) {
            assert(texts(strings@)[i as int] == s@);
            return true;
        }
    }
    false
}

fn merge_reasons(reasons: &Vec<Vec<String>>, members: &Vec<usize>) -> (r: Vec<String>)
    requires
        forall|k: int| 0 <= k < members@.len() ==> (#[trigger] members@[k]) < reasons@.len(),
    ensures
        texts(r@) == merged_reasons(reasons@, members@),
{
    let mut r: Vec<String> = Vec::new();
    assert(texts(r@) =~= merged_reasons(reasons@, members@.take(0)));
    for k in 0..members.len()
        invariant
            k <= members@.len(),
            forall|k: int| 0 <= k < members@.len() ==> (#[trigger] members@[k]) < reasons@.len(),
            texts(r@) == merged_reasons(reasons@, members@.take(k as int)),
    {
        let i = members[k];
        assert(i < reasons@.len());
        let own = &reasons[i];
        let ghost given = texts(r@);
        let ghost more = texts(own@);
        assert(with_reasons(given, more.take(0)) == given);
        for q in 0..own.len()
            invariant
                q <= own@.len(),
                more == texts(own@),
                texts(r@) == with_reasons(given, more.take(q as int)),
        {
            assert(more.take(q + 1).drop_last() =~= more.take(q as int));
            assert(more.take(q + 1).last() == own@[q as int]@);
            let ghost before = r@;
            if !has_text(&r, &own[q]) && r.len() < MAX_REASONS {
                r.push(own[q].clone());
                assert(texts(r@) =~= texts(before).push(own@[q as int]@));
            }
        }
        assert(more.take(more.len() as int) =~= more);
        assert(members@.take(k + 1).drop_last() =~= members@.take(k as int));
    }
    assert(members@.take(members@.len() as int) =~= members@);
    r
}

fn max_risk(logs: &Vec<LogRecord>, dets: &Vec<FinalDet>, members: &Vec<usize>) -> (r: Risk)
    requires
        dets@.len() == logs@.len(),
        forall|k: int| 0 <= k < members@.len() ==> (#[trigger] members@[k]) < logs@.len(),
    ensures
        r == worst_risk(logs@, dets@, members@),
{
    let mut r = Risk::Medium;
    for k in 0..members.len()
        invariant
            k <= members@.len(),
            dets@.len() == logs@.len(),
            forall|k: int| 0 <= k < members@.len() ==> (#[trigger] members@[k]) < logs@.len(),
            r == worst_risk(logs@, dets@, members@.take(k as int)),
    {
        let i = members[k];
        assert(i < logs@.len());
        assert(members@.take(k + 1).drop_last() =~= members@.take(k as int));
        r = r.worse(risk_level(&logs[i], &dets[i]));
    }
    assert(members@.take(members@.len() as int) =~= members@);
    r
}

fn batch_text(user: u32, seconds: i64, events: usize, label: u32) -> (r: String)
    ensures
        r@ == batch_reason(user, seconds as int, events as nat, label),
{
    let mut name = "噪声".to_owned();
    if label != 0 {
        name = "#".to_owned();
        name.append(decimal_text(label as u64).as_str());
    }
    let mut s = "批量行为事件：用户".to_owned();
    s.append(decimal_text(user as u64).as_str());
    s.append("在");
    s.append(signed_text(seconds).as_str());
    s.append("秒窗口内连续产生");
    s.append(decimal_text(events as u64).as_str());
    s.append("条同模式异常（DBSCAN同簇");
    s.append(name.as_str());
    s.append("）");
    s
}

/// The lines can be shown and their times be subtracted.
pub open spec fn timed(logs: Seq<LogRecord>) -> bool {
    forall|i: int|
        0 <= i < logs.len() ==> (#[trigger] logs[i]).timestamp.valid() && -LAST_EPOCH
            <= logs[i].timestamp.epoch <= LAST_EPOCH
}

/// Can the lines be shown and their times be subtracted?
pub fn is_timed(logs: &Vec<LogRecord>) -> (r: bool)
    ensures
        r == timed(logs@),
{
    for i in 0..logs.len()
        invariant
            forall|k: int|
                0 <= k < i ==> (#[trigger] logs@[k]).timestamp.valid() && -LAST_EPOCH
                    <= logs@[k].timestamp.epoch <= LAST_EPOCH,
    {
        let at = logs[i].timestamp;
        if !at.is_valid() || at.epoch < -LAST_EPOCH || at.epoch > LAST_EPOCH {
            assert(!(logs@[i as int].timestamp.valid() && -LAST_EPOCH
                <= logs@[i as int].timestamp.epoch <= LAST_EPOCH));
            return false;
        }
    }
    true
}

fn describe(
    logs: &Vec<LogRecord>,
    dets: &Vec<FinalDet>,
    reasons: &Vec<Vec<String>>,
    members: Vec<usize>,
) -> (r: Incident)
    requires
        dets@.len() == logs@.len(),
        reasons@.len() == logs@.len(),
        timed(logs@),
        members@.len() > 0,
        forall|k: int| 0 <= k < members@.len() ==> (#[trigger] members@[k]) < logs@.len(),
    ensures
        r.describes(logs@, dets@, reasons@, members@),
{
    let n = members.len();
    assert(members@[0] < logs@.len() && members@[n - 1] < logs@.len());
    let first = &logs[members[0]];
    let last = &logs[members[n - 1]];
    let duration_s = last.timestamp.epoch - first.timestamp.epoch;
    let mut all = merge_reasons(reasons, &members);
    if n > 1 {
        let ghost own = all@;
        let text = batch_text(first.user_id, duration_s, n, dets[members[0]].dbscan_label);
        let ghost head = text@;
        all.insert(0, text);
        assert(texts(all@) =~= seq![head] + texts(own));
    }
    Incident {
        user_id: first.user_id,
        start: first.timestamp.local().shown(),
        end: last.timestamp.local().shown(),
        duration_s,
        event_count: n,
        max_risk: max_risk(logs, dets, &members),
        members,
        reasons: all,
    }
}

/// The lines of some incidents.
pub open spec fn lines_of_incidents(incidents: Seq<Incident>) -> Seq<Seq<usize>> {
    Seq::new(incidents.len(), |k: int| incidents[k].members@)
}

/// Gathers the reported lines of a log into incidents, in the order of their first lines.
pub fn aggregate_incidents(
    logs: &Vec<LogRecord>,
    dets: &Vec<FinalDet>,
    reasons: &Vec<Vec<String>>,
) -> (r: Vec<Incident>)
    requires
        dets@.len() == logs@.len(),
        reasons@.len() == logs@.len(),
        timed(logs@),
    ensures
        divided(
            logs@,
            dets@,
            picked(dets@.len(), reported(dets@)),
            lines_of_incidents(r@),
        ),
        forall|k: int|
            0 <= k < r@.len() ==> (#[trigger] r@[k]).describes(
                logs@,
                dets@,
                reasons@,
                r@[k].members@,
            ),
{
    let lines = reported_lines(dets);
    proof {
        assert(dets@.len() == dets.len());
        lemma_picked(dets@.len(), reported(dets@));
    }
    let parts = divide(logs, dets, &lines);
    let ghost all = lists(parts@);
    let mut r: Vec<Incident> = Vec::new();
    for k in 0..parts.len()
        invariant
            dets@.len() == logs@.len(),
            reasons@.len() == logs@.len(),
            timed(logs@),
            forall|p: int| 0 <= p < lines@.len() ==> (#[trigger] lines@[p]) < logs@.len(),
            all == lists(parts@),
            divided(logs@, dets@, lines@, all),
            r@.len() == k,
            forall|q: int|
                0 <= q < k ==> (#[trigger] r@[q]).members@ == all[q] && r@[q].describes(
                    logs@,
                    dets@,
                    reasons@,
                    all[q],
                ),
    {
        let part = &parts[k];
        assert(all[k as int] == part@);
        let mut members: Vec<usize> = Vec::new();
        for m in 0..part.len()
            invariant
                members@ == part@.take(m as int),
                m <= part@.len(),
        {
            assert(part@.take(m + 1) =~= part@.take(m as int).push(part@[m as int]));
            members.push(part[m]);
        }
        assert(part@.take(part@.len() as int) =~= part@);
        proof {
            assert forall|m: int| 0 <= m < members@.len() implies (#[trigger] members@[m])
                < logs@.len() by {
                assert(all[k as int].contains(members@[m]));
                assert(lines@.contains(members@[m]));
                let p = choose|p: int| 0 <= p < lines@.len() && lines@[p] == members@[m];
                assert(lines@[p] < logs@.len());
            }
        }
        r.push(describe(logs, dets, reasons, members));
    }
    assert(lines_of_incidents(r@) =~= all);
    r
}

proof fn lemma_with_reasons(given: Seq<Seq<char>>, more: Seq<Seq<char>>)
    requires
        given.no_duplicates(),
        given.len() <= MAX_REASONS,
    ensures
        with_reasons(given, more).no_duplicates(),
        with_reasons(given, more).len() <= MAX_REASONS,
        given.len() <= with_reasons(given, more).len(),
        forall|t: Seq<char>| given.contains(t) ==> #[trigger] with_reasons(given, more).contains(t),
        forall|t: Seq<char>| #[trigger]
            with_reasons(given, more).contains(t) ==> given.contains(t) || more.contains(t),
        with_reasons(given, more).len() < MAX_REASONS ==> forall|t: Seq<char>|
            more.contains(t) ==> #[trigger] with_reasons(given, more).contains(t),
    decreases more.len(),
{
    broadcast use vstd::seq_lib::group_seq_properties;

    if more.len() > 0 {
        lemma_with_reasons(given, more.drop_last());
        assert(more =~= more.drop_last().push(more.last()));
    }
}

/// The reasons of an incident are reasons of its lines, none twice and not more than six. With
/// fewer than six, none of its lines' reasons is missing.
pub proof fn law_merged_reasons(reasons: Seq<Vec<String>>, members: Seq<usize>)
    ensures
        merged_reasons(reasons, members).no_duplicates(),
        merged_reasons(reasons, members).len() <= MAX_REASONS,
        forall|t: Seq<char>| #[trigger]
            merged_reasons(reasons, members).contains(t) ==> exists|k: int|
                0 <= k < members.len() && texts(reasons[#[trigger] members[k] as int]@).contains(t),
        merged_reasons(reasons, members).len() < MAX_REASONS ==> forall|k: int, t: Seq<char>|
            0 <= k < members.len() && #[trigger] texts(reasons[members[k] as int]@).contains(t)
                ==> merged_reasons(reasons, members).contains(t),
    decreases members.len(),
{
    if members.len() > 0 {
        let short = members.drop_last();
        let more = texts(reasons[members.last() as int]@);
        let all = merged_reasons(reasons, members);
        law_merged_reasons(reasons, short);
        lemma_with_reasons(merged_reasons(reasons, short), more);
        assert forall|t: Seq<char>| #[trigger] all.contains(t) implies exists|k: int|
            0 <= k < members.len() && texts(
                reasons[#[trigger] members[k] as int]@,
            ).contains(t) by {
            if more.contains(t) {
                assert(members[members.len() - 1] == members.last());
            } else {
                assert(merged_reasons(reasons, short).contains(t));
                let k = choose|k: int|
                    0 <= k < short.len() && texts(reasons[#[trigger] short[k] as int]@).contains(t);
                assert(members[k] == short[k]);
            }
        }
        if all.len() < MAX_REASONS {
            assert forall|k: int, t: Seq<char>|
                0 <= k < members.len() && #[trigger] texts(
                    reasons[members[k] as int]@,
                ).contains(t) implies all.contains(t) by {
                if k < short.len() {
                    assert(short[k] == members[k]);
                    assert(merged_reasons(reasons, short).contains(t));
                }
            }
        }
    }
}

/// An incident is as serious as the most serious of its lines.
pub proof fn law_incident_risk(
    logs: Seq<LogRecord>,
    dets: Seq<FinalDet>,
    members: Seq<usize>,
    k: int,
)
    requires
        0 <= k < members.len(),
    ensures
        risk(
            logs[members[k] as int].sensitivity,
            logs[members[k] as int].file_size_kb,
            dets[members[k] as int].max_z,
        ).at_most(worst_risk(logs, dets, members)),
        exists|m: int|
            0 <= m < members.len() && worst_risk(logs, dets, members) == risk(
                logs[#[trigger] members[m] as int].sensitivity,
                logs[members[m] as int].file_size_kb,
                dets[members[m] as int].max_z,
            ),
    decreases members.len(),
{
    let n = members.len() - 1;
    let short = members.drop_last();
    assert(members[n] == members.last());
    if members.len() > 1 {
        let j = if k < n { k } else { 0 };
        law_incident_risk(logs, dets, short, j);
        assert(short[j] == members[j]);
        let m = choose|m: int|
            0 <= m < short.len() && worst_risk(logs, dets, short) == risk(
                logs[#[trigger] short[m] as int].sensitivity,
                logs[short[m] as int].file_size_kb,
                dets[short[m] as int].max_z,
            );
        assert(short[m] == members[m]);
    }
}

/// Two reported lines of one user that are at most 90 seconds apart are in the same incident, and
/// so are two of one user and one cluster that are at most 360 seconds apart, whatever else the
/// lines say.
pub proof fn law_near_reports_share_an_incident(
    logs: Seq<LogRecord>,
    dets: Seq<FinalDet>,
    incidents: Seq<Incident>,
    a: int,
    b: int,
)
    requires
        dets.len() == logs.len(),
        dets.len() <= usize::MAX,
        divided(logs, dets, picked(dets.len(), reported(dets)), lines_of_incidents(incidents)),
        0 <= a < logs.len(),
        0 <= b < logs.len(),
        dets[a].final_anom,
        dets[b].final_anom,
        logs[a].user_id == logs[b].user_id,
        -90 <= logs[a].timestamp.epoch - logs[b].timestamp.epoch <= 90 || -360
            <= logs[a].timestamp.epoch - logs[b].timestamp.epoch <= 360 && dets[a].dbscan_label
            == dets[b].dbscan_label,
    ensures
        exists|k: int|
            0 <= k < incidents.len() && (#[trigger] incidents[k]).members@.contains(a as usize)
                && incidents[k].members@.contains(b as usize),
{
    let lines = picked(dets.len(), reported(dets));
    let parts = lines_of_incidents(incidents);
    lemma_picked(dets.len(), reported(dets));
    assert(reported(dets)(a) && reported(dets)(b));
    law_near_lines_share_a_part(logs, dets, lines, parts, a as usize, b as usize);
    let k = choose|k: int|
        0 <= k < parts.len() && (#[trigger] parts[k]).contains(a as usize) && parts[k].contains(
            b as usize,
        );
    assert(parts[k] == incidents[k].members@);
}

/// The lines of an incident are reported lines of one user, and every reported line is in an
/// incident.
pub proof fn law_incidents_hold_the_reports(
    logs: Seq<LogRecord>,
    dets: Seq<FinalDet>,
    incidents: Seq<Incident>,
    k: int,
    m: int,
    i: int,
)
    requires
        dets.len() == logs.len(),
        dets.len() <= usize::MAX,
        divided(logs, dets, picked(dets.len(), reported(dets)), lines_of_incidents(incidents)),
        0 <= k < incidents.len(),
        0 <= m < incidents[k].members@.len(),
        0 <= i < logs.len(),
    ensures
        incidents[k].members@[m] < logs.len(),
        dets[incidents[k].members@[m] as int].final_anom,
        logs[incidents[k].members@[m] as int].user_id
            == logs[incidents[k].members@[0] as int].user_id,
        dets[i].final_anom ==> exists|l: int|
            0 <= l < incidents.len() && (#[trigger] incidents[l]).members@.contains(i as usize),
{
    let lines = picked(dets.len(), reported(dets));
    let parts = lines_of_incidents(incidents);
    lemma_picked(dets.len(), reported(dets));
    assert(parts[k] == incidents[k].members@);
    let line = parts[k][m];
    assert(parts[k].contains(line) && parts[k].contains(parts[k][0]));
    assert(lines.contains(line));
    let p = choose|p: int| 0 <= p < lines.len() && lines[p] == line;
    assert(reported(dets)(lines[p] as int));
    law_a_part_has_one_user(logs, dets, lines, parts, k, line, parts[k][0]);
    if dets[i].final_anom {
        assert(reported(dets)(i));
        assert(lines.contains(i as usize));
        assert(in_some_part(parts, i as usize));
        let l = choose|l: int| 0 <= l < parts.len() && (#[trigger] parts[l]).contains(i as usize);
        assert(parts[l] == incidents[l].members@);
    }
}

/// An incident tells of its lines: whose they are, how many, from the first to the last, and that
/// the whole is critical if one line deviates by 8.0 or more, or its file is of level 4 or higher
/// and larger than 500 kilobytes. With several lines the first reason says so.
pub proof fn law_incident_tells_of_its_lines(
    x: Incident,
    logs: Seq<LogRecord>,
    dets: Seq<FinalDet>,
    reasons: Seq<Vec<String>>,
    members: Seq<usize>,
    k: int,
)
    requires
        x.describes(logs, dets, reasons, members),
        0 <= k < members.len(),
    ensures
        ({
            let n = members.len();
            let (first, last) = (logs[members[0] as int], logs[members[n - 1] as int]);
            let (log, det) = (logs[members[k] as int], dets[members[k] as int]);
            &&& x.user_id == first.user_id
            &&& x.members@ == members
            &&& x.event_count == n
            &&& x.duration_s == last.timestamp.epoch - first.timestamp.epoch
            &&& x.start@ == moment_text(first.timestamp.moment())
            &&& x.end@ == moment_text(last.timestamp.moment())
            &&& det.max_z.at_least(Double { bits: 0x4020_0000_0000_0000 }) ==> x.max_risk
                == Risk::Critical
            &&& log.sensitivity >= 4 && log.file_size_kb.above(
                Double { bits: 0x407f_4000_0000_0000 },
            ) ==> x.max_risk == Risk::Critical
            &&& x.max_risk == Risk::Medium ==> !det.max_z.at_least(
                Double { bits: 0x4014_0000_0000_0000 },
            ) && log.sensitivity < 4 && !log.file_size_kb.above(
                Double { bits: 0x407f_4000_0000_0000 },
            )
            &&& n == 1 ==> x.reasons@.len() <= 6
            &&& n > 1 ==> 1 <= x.reasons@.len() <= 7 && x.reasons@[0]@ == "批量行为事件：用户"@ + decimal(
                first.user_id as nat,
            ) + "在"@ + signed_decimal(last.timestamp.epoch - first.timestamp.epoch) + "秒窗口内连续产生"@
                + decimal(n) + "条同模式异常（DBSCAN同簇"@ + (if dets[members[0] as int].dbscan_label == 0 {
                "噪声"@
            } else {
                "#"@ + decimal(dets[members[0] as int].dbscan_label as nat)
            }) + "）"@
        }),
{
    let (log, det) = (logs[members[k] as int], dets[members[k] as int]);
    law_incident_risk(logs, dets, members, k);
    law_deviation_alone_is_a_risk(log.sensitivity, log.file_size_kb, det.max_z);
    law_file_alone_is_a_risk(log.sensitivity, log.file_size_kb, det.max_z);
    law_merged_reasons(reasons, members);
    assert(texts(x.reasons@).len() == x.reasons@.len());
    if members.len() > 1 {
        assert(texts(x.reasons@)[0] == x.reasons@[0]@);
    }
}

/// An incident is critical, or a high risk, only if one of its lines is.
pub proof fn law_incident_risk_has_a_cause(
    x: Incident,
    logs: Seq<LogRecord>,
    dets: Seq<FinalDet>,
    reasons: Seq<Vec<String>>,
    members: Seq<usize>,
) -> (m: int)
    requires
        x.describes(logs, dets, reasons, members),
        members.len() > 0,
    ensures
        0 <= m < members.len(),
        ({
            let (log, det) = (logs[members[m] as int], dets[members[m] as int]);
            &&& x.max_risk == Risk::Critical ==> det.max_z.at_least(
                Double { bits: 0x4020_0000_0000_0000 },
            ) || log.sensitivity >= 4 && log.file_size_kb.above(
                Double { bits: 0x407f_4000_0000_0000 },
            )
            &&& x.max_risk == Risk::High ==> det.max_z.at_least(
                Double { bits: 0x4014_0000_0000_0000 },
            ) || log.sensitivity >= 4 || log.file_size_kb.above(
                Double { bits: 0x407f_4000_0000_0000 },
            )
        }),
{
    law_incident_risk(logs, dets, members, 0);
    let m = choose|m: int|
        0 <= m < members.len() && worst_risk(logs, dets, members) == risk(
            logs[#[trigger] members[m] as int].sensitivity,
            logs[members[m] as int].file_size_kb,
            dets[members[m] as int].max_z,
        );
    let (log, det) = (logs[members[m] as int], dets[members[m] as int]);
    law_risks_have_a_cause(log.sensitivity, log.file_size_kb, det.max_z);
    m
}

/// One more reason is added at the end unless it is there already or there are six; the reasons
/// that were there stay where they are.
pub proof fn law_one_more_reason(given: Seq<Seq<char>>, more: Seq<Seq<char>>, t: Seq<char>)
    ensures
        with_reasons(given, Seq::empty()) == given,
        ({
            let before = with_reasons(given, more);
            let after = with_reasons(given, more.push(t));
            &&& before.contains(t) || before.len() >= 6 ==> after == before
            &&& !before.contains(t) && before.len() < 6 ==> after == before.push(t)
        }),
{
    assert(more.push(t).drop_last() =~= more);
}

/// The reasons of one more line come after those of the lines before it.
pub proof fn law_one_more_line(reasons: Seq<Vec<String>>, members: Seq<usize>, line: usize)
    ensures
        merged_reasons(reasons, Seq::empty()) == Seq::<Seq<char>>::empty(),
        merged_reasons(reasons, members.push(line)) == with_reasons(
            merged_reasons(reasons, members),
            texts(reasons[line as int]@),
        ),
        merged_reasons(reasons, members).is_prefix_of(
            merged_reasons(reasons, members.push(line)),
        ),
        merged_reasons(reasons, members).len() <= 6,
{
    assert(members.push(line).drop_last() =~= members);
    law_merged_reasons(reasons, members);
    lemma_prefix(merged_reasons(reasons, members), texts(reasons[line as int]@));
}

proof fn lemma_prefix(given: Seq<Seq<char>>, more: Seq<Seq<char>>)
    ensures
        given.is_prefix_of(with_reasons(given, more)),
    decreases more.len(),
{
    if more.len() > 0 {
        lemma_prefix(given, more.drop_last());
    }
}

/// Lines can be shown and their times subtracted exactly if each has a day of the calendar, a clock
/// time, and a time stamp within nine trillion seconds of 1970.
pub proof fn law_timed_lines(logs: Seq<LogRecord>)
    ensures
        timed(logs) <==> forall|i: int|
            0 <= i < logs.len() ==> {
                let at = (#[trigger] logs[i]).timestamp;
                &&& -95_746_129 <= at.day <= 95_745_399
                &&& at.hour < 24
                &&& at.minute < 60
                &&& at.second < 60
                &&& -9_000_000_000_000 <= at.epoch <= 9_000_000_000_000
            },
{
}

} // verus!
