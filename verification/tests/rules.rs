//! The rules, on given values.

use chrono::{Datelike, NaiveDate};
use rustguard::calendar::Stamp;
use rustguard::double::Double;
use rustguard::explain::{
    build_reasons, explain_log, feature_name, reasons_by_line, risk_level, Figures, Risk,
    LARGE_KB, RATIO_REMARK, Z_CRITICAL, Z_HIGH,
};
use rustguard::features::Enriched;
use rustguard::fusion::{
    fuse, reported_lines, score_threshold, FinalDet, Fusion, Signals, DEFAULT_FUSION, VOTE_SCORE,
    Z_BOOST_MIN, Z_STRONG,
};
use rustguard::groups::{group_by_user, in_log_order, lines_at, place_of, times_of};
use rustguard::hybrid::{
    baseline_lines, clip, dominant_cluster, feature_column, is_candidate, judge_log,
    points_labelled, robust_sigma, user_baseline, Evidence, HybOut, UserBaseline, Z_BRIDGE_MIN, Z_CLIP,
    Z_SINGLE_STRONG, Z_THRESHOLD, Z_TYPICAL_DIST,
};
use rustguard::incidents::{aggregate_incidents, is_timed};
use rustguard::linking::divide;
use rustguard::metrics::{
    flags_of, metrics_of, recall_verdict, strongest_signals, tag_recall, Opinion, EXPRESSED,
    PARTLY_FOUND,
};
use rustguard::record::{encode_operation, sort_logs, LogRecord};

fn double(x: f64) -> Double {
    Double { bits: x.to_bits() }
}

fn doubles(xs: &[f64]) -> Vec<Double> {
    xs.iter().map(|x| double(*x)).collect()
}

fn day(y: i32, m: u32, d: u32) -> i32 {
    NaiveDate::from_ymd_opt(y, m, d).unwrap().num_days_from_ce()
}

fn stamp(epoch: i64) -> Stamp {
    Stamp { epoch, day: day(2024, 2, 29), hour: 9, minute: 5, second: 7 }
}

fn line(user_id: u32, epoch: i64) -> LogRecord {
    LogRecord {
        user_id,
        timestamp: stamp(epoch),
        operation: "view".to_string(),
        file_size_kb: double(100.0),
        sensitivity: 1,
        is_anomaly: false,
        scenario_tag: 0,
    }
}

fn det(final_anom: bool, label: u32) -> FinalDet {
    FinalDet {
        hyb_anom: final_anom,
        dbscan_hit: final_anom,
        if_anom: false,
        if_raw: double(0.5),
        final_anom,
        pred: if final_anom { -1 } else { 1 },
        score: double(0.0),
        max_z: double(3.5),
        dbscan_label: label,
        z: doubles(&[0.5, -3.5, 1.0]),
    }
}

fn enriched(count5: usize, ratio: f64) -> Enriched {
    Enriched { features: doubles(&[9.0, 4.6]), count5, max_count: 12, ratio: double(ratio) }
}

fn base() -> UserBaseline {
    UserBaseline {
        work_start_hour: 9,
        work_end_hour: 17,
        mean_file_size_kb: double(100.0),
        max_count_5min: 4,
        max_sensitivity: 2,
    }
}

fn figures() -> Figures {
    Figures {
        size: "812".to_string(),
        mean: "101".to_string(),
        ratio: "8.04".to_string(),
        max_z: "3.5".to_string(),
    }
}

#[test]
fn thresholds_have_their_values() {
    let table = [
        (Z_THRESHOLD, 3.0),
        (Z_SINGLE_STRONG, 5.0),
        (Z_TYPICAL_DIST, 4.0),
        (Z_CLIP, 4.0),
        (Z_BRIDGE_MIN, 2.4),
        (Z_STRONG, 5.0),
        (Z_BOOST_MIN, 2.4),
        (VOTE_SCORE, -0.5),
        (Z_CRITICAL, 8.0),
        (Z_HIGH, 5.0),
        (LARGE_KB, 500.0),
        (RATIO_REMARK, 3.0),
        (EXPRESSED, 70.0),
        (PARTLY_FOUND, 30.0),
    ];
    for (bits, value) in table {
        assert_eq!(f64::from_bits(bits), value);
    }
}

#[test]
fn operations_have_codes() {
    assert_eq!(encode_operation("view"), 0);
    assert_eq!(encode_operation("download"), 1);
    assert_eq!(encode_operation("edit"), 2);
    assert_eq!(encode_operation("delete"), 3);
    assert_eq!(encode_operation("View"), -1);
    assert_eq!(encode_operation(""), -1);
}

#[test]
fn logs_sort_by_time_then_user() {
    let mut logs = vec![line(2, 10), line(1, 10), line(3, 5), line(1, 10)];
    logs[1].sensitivity = 7;
    let sorted = sort_logs(&logs);
    let keys: Vec<(i64, u32, u8)> =
        sorted.iter().map(|l| (l.timestamp.epoch, l.user_id, l.sensitivity)).collect();
    assert_eq!(keys, vec![(5, 3, 1), (10, 1, 7), (10, 1, 1), (10, 2, 1)]);
}

#[test]
fn lines_are_grouped_by_user() {
    let logs = vec![line(7, 1), line(2, 2), line(7, 3), line(5, 4)];
    let groups = group_by_user(&logs);
    let users: Vec<u32> = groups.iter().map(|g| g.user).collect();
    let members: Vec<Vec<usize>> = groups.iter().map(|g| g.members.clone()).collect();
    assert_eq!(users, vec![2, 5, 7]);
    assert_eq!(members, vec![vec![1], vec![3], vec![0, 2]]);
    assert_eq!(place_of(&logs, &groups, 2), (2, 1));
    assert_eq!(times_of(&logs, &groups[2].members), vec![1, 3]);
    assert_eq!(lines_at(&groups[2].members, &vec![1, 1, 0]), vec![2, 2, 0]);
    let found = vec![doubles(&[0.1]), doubles(&[0.2]), doubles(&[0.3, 0.4])];
    assert_eq!(in_log_order(&logs, &groups, &found), doubles(&[0.3, 0.1, 0.4, 0.2]));
    assert!(group_by_user(&Vec::new()).is_empty());
}

#[test]
fn columns_and_floors() {
    let rows = vec![enriched(1, 1.0), enriched(2, 1.0)];
    assert_eq!(feature_column(&rows, &vec![1, 0, 1], 1), doubles(&[4.6, 4.6, 4.6]));
    let floor = |f: usize| f64::from_bits(robust_sigma(f, double(0.0), double(0.01)).bits);
    let floors: Vec<f64> = (0..8).map(floor).collect();
    assert_eq!(floors, vec![0.5, 0.10, 0.50, 1.00, 0.06, 0.10, 0.15, 0.15]);
    assert_eq!(robust_sigma(4, double(0.0), double(0.25)), double(0.25));
    assert_eq!(robust_sigma(4, double(0.7), double(0.25)), double(0.7));
}

#[test]
fn candidates_need_strong_or_double_evidence() {
    let thr = double(3.0);
    assert!(!is_candidate(&doubles(&[0.0, 3.1, 0.0, 0.0, 0.0, 3.1]), thr));
    assert!(is_candidate(&doubles(&[0.0, 3.1, 0.0, 0.0, -3.1, 0.0]), thr));
    assert!(!is_candidate(&doubles(&[0.0, 5.0, 0.0, 0.0, 0.0, 0.0]), thr));
    assert!(is_candidate(&doubles(&[0.0, 0.0, 0.0, 0.0, 0.0, -5.1]), thr));
    assert!(!is_candidate(&doubles(&[3.0, 3.0, 3.0, 3.0, 3.0, 3.0]), thr));
    assert!(is_candidate(&doubles(&[0.0, 0.0, 0.0, 0.0, 0.0, 3.1, 3.1]), thr));
    assert!(!is_candidate(&doubles(&[0.0, 0.0, 0.0, 0.0, 0.0, 0.0, 3.1]), thr));
}

#[test]
fn deviations_are_clipped() {
    let z = clip(&doubles(&[-9.0, -4.0, 0.5, 4.0, 1e300]));
    assert_eq!(z, doubles(&[-4.0, -4.0, 0.5, 4.0, 4.0]));
}

#[test]
fn the_dominant_cluster_is_the_largest() {
    assert_eq!(dominant_cluster(&vec![0, 0, 0]), None);
    assert_eq!(dominant_cluster(&Vec::new()), None);
    assert_eq!(dominant_cluster(&vec![0, 0, 0, 2, 1, 2]), Some(2));
    assert_eq!(dominant_cluster(&vec![3, 1, 3, 1]), Some(1));
    assert_eq!(points_labelled(&vec![3, 1, 3, 1], 3), vec![0, 2]);
}

/// Forty points of cluster 1, and the given ones.
fn evidence(points: &[(f64, bool, u32, f64, i64)]) -> Evidence {
    let mut e = Evidence {
        z: Vec::new(),
        candidates: Vec::new(),
        labels: Vec::new(),
        dominant: None,
        dists: Vec::new(),
        times: Vec::new(),
    };
    let ordinary = (0.1, false, 1, 0.1, -1_000_000);
    for p in std::iter::repeat(&ordinary).take(40).chain(points) {
        e.z.push(doubles(&[0.0, -p.0]));
        e.candidates.push(p.1);
        e.labels.push(p.2);
        e.dists.push(double(p.3));
        e.times.push(p.4);
    }
    e.dominant = dominant_cluster(&e.labels);
    e
}

fn anomalies(e: &Evidence) -> Vec<bool> {
    e.judge()[40..].iter().map(|v| v.anom).collect()
}

#[test]
fn evidence_is_completed() {
    let z = vec![doubles(&[0.0, 6.0]), doubles(&[0.0, 0.5])];
    let e = Evidence::new(z, double(3.0), vec![4, 2], doubles(&[1.0, 2.0]), vec![10, 20]);
    assert_eq!(e.candidates, vec![true, false]);
    assert_eq!(e.dominant, Some(2));
    assert_eq!((e.labels, e.times), (vec![4, 2], vec![10, 20]));
}

#[test]
fn a_candidate_off_the_clusters_is_confirmed() {
    let e = evidence(&[
        (6.0, true, 0, 9.0, 0),
        (2.0, false, 0, 9.0, 5_000),
        (6.0, true, 1, 1.0, 10_000),
        (6.0, true, 1, 4.1, 20_000),
    ]);
    assert_eq!(anomalies(&e), vec![true, false, false, true]);
    let verdict = &e.judge()[40];
    assert!(verdict.dbscan_hit);
    assert_eq!(verdict.max_z, double(6.0));
    assert_eq!(verdict.z, doubles(&[0.0, -6.0]));
    assert_eq!(verdict.dbscan_label, 0);
    assert!(!e.judge()[42].dbscan_hit);
}

#[test]
fn a_small_cluster_is_reported_as_a_whole() {
    let e = evidence(&[
        (0.1, false, 2, 1.0, 0),
        (0.1, false, 2, 1.0, 9_000),
        (6.0, true, 2, 1.0, 20_000),
        (0.1, false, 3, 1.0, 30_000),
    ]);
    assert_eq!(anomalies(&e), vec![true, true, true, false]);
}

#[test]
fn a_large_second_cluster_is_ordinary() {
    let mut points = vec![(0.1, false, 2, 1.0, 0); 11];
    points.push((6.0, true, 2, 1.0, 5));
    let e = evidence(&points);
    assert!(anomalies(&e).iter().all(|a| !a));
}

#[test]
fn bridging_needs_nearness_and_a_signal() {
    let e = evidence(&[
        (6.0, true, 0, 9.0, 1_000),
        (2.5, false, 0, 9.0, 1_060),
        (2.5, false, 0, 9.0, 1_061),
        (2.4, false, 0, 9.0, 950),
        (3.1, false, 1, 1.0, 940),
        (3.0, false, 1, 1.0, 1_001),
        (3.1, false, 1, 1.0, 1_120),
    ]);
    assert_eq!(anomalies(&e), vec![true, true, false, false, true, false, false]);
}

#[test]
fn ordinary_points_stand_for_the_user() {
    let e = evidence(&[(6.0, true, 0, 9.0, 0)]);
    assert_eq!(e.ordinary_points(), (0..40).collect::<Vec<usize>>());
    let mut noise = evidence(&[]);
    noise.labels = vec![0; 40];
    noise.dominant = None;
    noise.candidates[3] = true;
    let rest: Vec<usize> = (0..40).filter(|j| *j != 3).collect();
    assert_eq!(noise.ordinary_points(), rest);
    noise.candidates = vec![true; 40];
    assert_eq!(noise.ordinary_points(), (0..40).collect::<Vec<usize>>());
}

#[test]
fn baselines_are_taken_from_ordinary_lines() {
    let logs: Vec<LogRecord> = (0..81).map(|i| line(1 + i % 2, i as i64)).collect();
    let groups = group_by_user(&logs);
    let mut noise = evidence(&[]);
    noise.labels = vec![0; 40];
    noise.dominant = None;
    noise.candidates[3] = true;
    let lines = baseline_lines(&groups, &vec![evidence(&[(6.0, true, 0, 9.0, 0)]), noise]);
    let even: Vec<usize> = (0..40).map(|j| 2 * j).collect();
    let odd: Vec<usize> = (0..40).filter(|j| *j != 3).map(|j| 2 * j + 1).collect();
    assert_eq!(lines, vec![even, odd]);
    assert!(baseline_lines(&Vec::new(), &Vec::new()).is_empty());
}

#[test]
fn verdicts_return_to_the_order_of_the_log() {
    let mut logs = Vec::new();
    for i in 0..82 {
        logs.push(line(1 + i % 2, i as i64));
    }
    let groups = group_by_user(&logs);
    let (loud, quiet) =
        (evidence(&[(6.0, true, 0, 9.0, 0)]), evidence(&[(0.1, false, 1, 0.1, 0)]));
    let verdicts = judge_log(&logs, &groups, &vec![quiet, loud]);
    assert_eq!(verdicts.len(), 82);
    let hits: Vec<usize> = (0..82).filter(|i| verdicts[*i].anom).collect();
    assert_eq!(hits, vec![81]);
}

#[test]
fn baselines_span_the_ordinary_lines() {
    let mut logs = vec![line(1, 0), line(1, 1), line(1, 2)];
    logs[0].timestamp.hour = 11;
    logs[1].timestamp.hour = 16;
    logs[2].timestamp.hour = 3;
    logs[1].sensitivity = 4;
    logs[2].sensitivity = 5;
    let rows = vec![enriched(3, 1.0), enriched(2, 1.0), enriched(9, 1.0)];
    let b = user_baseline(&logs, &rows, &vec![0, 1], double(12.5));
    assert_eq!((b.work_start_hour, b.work_end_hour), (11, 16));
    assert_eq!((b.max_count_5min, b.max_sensitivity), (3, 4));
    assert_eq!(b.mean_file_size_kb, double(12.5));
    let none = user_baseline(&logs, &rows, &Vec::new(), double(0.0));
    assert_eq!((none.work_start_hour, none.work_end_hour), (23, 0));
    assert_eq!((none.max_count_5min, none.max_sensitivity), (0, 0));
}

#[test]
fn rules_have_names_and_labels() {
    let table = [
        ("hybrid", Fusion::Hybrid, "HYBRID-PRIMARY（混合主判定，IF交叉验证）"),
        ("and", Fusion::And, "AND（双引擎交集，误报优先）"),
        ("or", Fusion::Or, "OR（并集，召回优先）"),
        ("vote", Fusion::Vote, "VOTE（三信号取二）"),
        ("smart", Fusion::Smart, "SMART（弱偏离需IF共识）"),
        ("boost", Fusion::Boost, "BOOST（SMART+IF补报）"),
    ];
    for (name, rule, label) in table {
        assert_eq!(Fusion::parse(name), Some(rule));
        assert_eq!(Fusion::parse(&name.to_uppercase()), Some(rule));
        assert_eq!(rule.label(), label);
    }
    assert_eq!(Fusion::parse("SmArT"), Some(Fusion::Smart));
    assert_eq!(Fusion::parse(""), None);
    assert_eq!(Fusion::parse("smarter"), None);
    assert_eq!(Fusion::parse("ＡＮＤ"), None);
    assert_eq!(DEFAULT_FUSION, Fusion::Hybrid);
}

#[test]
fn rules_decide() {
    let rules =
        [Fusion::Hybrid, Fusion::And, Fusion::Or, Fusion::Vote, Fusion::Smart, Fusion::Boost];
    let decide = |hyb_anom, if_anom, dbscan_hit, max_z: f64, score: f64| -> Vec<bool> {
        let s = Signals {
            hyb_anom,
            if_anom,
            dbscan_hit,
            max_z: double(max_z),
            score: double(score),
        };
        rules.iter().map(|r| s.decide(*r)).collect()
    };
    assert_eq!(decide(true, false, true, 4.9, -0.5), [true, false, true, false, false, false]);
    assert_eq!(decide(true, false, true, 5.0, -0.51), [true, false, true, true, true, true]);
    assert_eq!(decide(true, true, false, 0.0, 0.0), [true; 6]);
    assert_eq!(decide(false, true, true, 2.4, 0.0), [false, false, true, false, false, false]);
    assert_eq!(decide(false, true, true, 2.5, -0.6), [false, false, true, true, false, true]);
    assert_eq!(decide(false, true, false, 9.0, 0.0), [false, false, true, false, false, false]);
    assert_eq!(decide(false, false, true, 9.0, -0.9), [false; 6]);
}

fn hyb(anom: bool) -> HybOut {
    HybOut {
        anom,
        dbscan_hit: anom,
        max_z: double(4.0),
        z: doubles(&[4.0, -1.0]),
        dbscan_label: 3,
    }
}

#[test]
fn the_forest_reports_one_line_in_twenty() {
    for (n, flagged) in [(1usize, 0usize), (19, 0), (20, 0), (21, 1), (40, 1), (41, 2), (500, 24)] {
        let raw: Vec<Double> = (0..n).map(|i| double(((i * 7) % n) as f64 + 0.5)).collect();
        let raw = if n % 7 == 0 { (0..n).map(|i| double(i as f64)).collect() } else { raw };
        let t = score_threshold(&raw);
        assert_eq!(raw.iter().filter(|r| r.gt(t)).count(), flagged);
    }
    assert_eq!(score_threshold(&doubles(&[0.4, 0.4, 0.4])), double(0.4));
    assert_eq!(score_threshold(&doubles(&[0.1, f64::NAN, 0.4])).is_nan(), true);
}

#[test]
fn verdicts_are_fused() {
    let raw: Vec<Double> = (0..40).map(|i| double(i as f64 / 100.0)).collect();
    let verdicts: Vec<HybOut> = (0..40).map(|i| hyb(i % 2 == 0)).collect();
    let scores = vec![double(-0.25); 40];
    let dets = fuse(Fusion::Or, &verdicts, &raw, &scores);
    assert_eq!(dets.len(), 40);
    assert!(dets[39].final_anom && dets[39].if_anom && !dets[39].hyb_anom);
    assert_eq!(dets[39].pred, -1);
    assert!(!dets[37].final_anom);
    assert_eq!(dets[37].pred, 1);
    assert!(dets[0].final_anom && dets[0].hyb_anom && !dets[0].if_anom);
    assert_eq!(dets[0].z, doubles(&[4.0, -1.0]));
    assert_eq!((dets[0].max_z, dets[0].dbscan_label), (double(4.0), 3));
    assert_eq!((dets[5].score, dets[5].if_raw), (double(-0.25), double(0.05)));
    assert_eq!(reported_lines(&dets).len(), 21);
}

#[test]
fn metrics_counting() {
    let mk = |tag: u8| LogRecord { is_anomaly: tag != 0, scenario_tag: tag, ..line(1, 0) };
    let logs = vec![mk(1), mk(0), mk(1), mk(0), mk(0)];
    let flags = vec![true, true, false, false, true];
    let m = metrics_of(&flags, &logs);
    assert_eq!((m.true_positives, m.false_positives, m.false_negatives), (1, 2, 1));
    let true_count = m.true_positives + m.false_negatives;
    let detection_rate =
        (100.0 * m.true_positives as f64 / true_count as f64 * 10.0).round() / 10.0;
    assert_eq!(detection_rate, 50.0);
    assert_eq!(m.predicted, 3);
    let short = metrics_of(&vec![true], &logs);
    assert_eq!((short.predicted, short.false_negatives), (1, 0));
}

#[test]
fn opinions_are_read_off_the_verdicts() {
    let mut d = det(true, 1);
    d.hyb_anom = false;
    d.if_anom = true;
    d.dbscan_hit = true;
    let dets = vec![d, det(false, 1)];
    assert_eq!(flags_of(&dets, Opinion::Final), vec![true, false]);
    assert_eq!(flags_of(&dets, Opinion::Forest), vec![true, false]);
    assert_eq!(flags_of(&dets, Opinion::Rule(Fusion::Hybrid)), vec![false, false]);
    assert_eq!(flags_of(&dets, Opinion::Rule(Fusion::Boost)), vec![true, false]);
}

#[test]
fn recall_of_a_scenario() {
    let mk = |tag: u8| LogRecord { scenario_tag: tag, ..line(1, 0) };
    let logs = vec![mk(5), mk(0), mk(5), mk(5)];
    let mut dets = vec![det(true, 1), det(true, 1), det(false, 1), det(true, 1)];
    dets[2].max_z = double(9.5);
    dets[1].max_z = double(20.0);
    dets[3].if_raw = double(0.75);
    assert_eq!(tag_recall(&logs, &dets, 5), (2, 3));
    assert_eq!(tag_recall(&logs, &dets, 6), (0, 0));
    assert_eq!(strongest_signals(&logs, &dets, 5), (double(9.5), double(0.75)));
    assert_eq!(strongest_signals(&logs, &dets, 6), (double(0.0), double(0.0)));
    assert_eq!(recall_verdict(double(70.0)), "✓特征可表达");
    assert_eq!(recall_verdict(double(69.9)), "△部分检出");
    assert_eq!(recall_verdict(double(30.0)), "△部分检出");
    assert_eq!(recall_verdict(double(29.9)), "✗结构性盲区");
}

#[test]
fn risks_are_graded() {
    let grade = |sensitivity: u8, size: f64, z: f64| {
        let log = LogRecord { sensitivity, file_size_kb: double(size), ..line(1, 0) };
        let d = FinalDet { max_z: double(z), ..det(true, 0) };
        risk_level(&log, &d)
    };
    assert_eq!(grade(1, 100.0, 8.0), Risk::Critical);
    assert_eq!(grade(4, 500.1, 0.0), Risk::Critical);
    assert_eq!(grade(4, 500.0, 0.0), Risk::High);
    assert_eq!(grade(3, 500.1, 0.0), Risk::High);
    assert_eq!(grade(1, 100.0, 5.0), Risk::High);
    assert_eq!(grade(3, 500.0, 4.9), Risk::Medium);
    assert_eq!(Risk::Critical.text(), "Critical");
    assert_eq!(Risk::High.text(), "High");
    assert_eq!(Risk::Medium.text(), "Medium");
    assert_eq!(Risk::Medium.worse(Risk::High), Risk::High);
    assert_eq!(Risk::Critical.worse(Risk::High), Risk::Critical);
}

#[test]
fn every_reason_is_given() {
    let mut log = LogRecord { sensitivity: 5, ..line(1, 0) };
    log.timestamp.hour = 3;
    let reasons = build_reasons(&log, &enriched(12, 8.04), &det(true, 0), &base(), &figures());
    assert_eq!(
        reasons,
        vec![
            "访问时间异常：03:05，偏离该用户正常工作时间（9:00-18:00）",
            "文件大小异常：812KB，超出该用户历史均值（101KB）约8.04倍",
            "操作频率异常：该用户在5分钟内第12次操作，历史峰值为4次/5min",
            "敏感数据越权访问：本次文件密级5，该用户历史访问最高密级2（此前从未接触）",
        ]
    );
}

#[test]
fn reasons_have_limits() {
    let mut log = LogRecord { sensitivity: 2, ..line(1, 0) };
    let fallback = "多维特征统计偏离：log_size(大小对数) 的 z-score 达 3.5（阈值 3），显著偏离该用户个体基线";
    for hour in [9, 17] {
        log.timestamp.hour = hour;
        let reasons = build_reasons(&log, &enriched(5, 2.9), &det(true, 0), &base(), &figures());
        assert_eq!(reasons, vec![fallback]);
    }
    log.timestamp.hour = 18;
    log.timestamp.minute = 40;
    let reasons = build_reasons(&log, &enriched(6, 3.0), &det(true, 0), &base(), &figures());
    assert_eq!(reasons.len(), 3);
    assert!(reasons[0].starts_with("访问时间异常：18:40"));
    let busy = UserBaseline { max_count_5min: 6, ..base() };
    let reasons = build_reasons(&log, &enriched(6, 1.0), &det(true, 0), &busy, &figures());
    assert_eq!(reasons.len(), 1);
}

#[test]
fn the_last_of_the_worst_features_is_named() {
    let names = [
        "hour(操作时刻)",
        "log_size(大小对数)",
        "sensitivity(密级)",
        "operation(操作编码)",
        "freq_5min(5分钟频率)",
        "log_size_ratio(大小偏离度对数)",
        "is_weekend(是否周末)",
    ];
    for (f, name) in names.iter().enumerate() {
        assert_eq!(feature_name(f), *name);
        let mut z = vec![0.5; 7];
        z[f] = -2.0;
        z[0] = 2.0;
        let d = FinalDet { z: doubles(&z), ..det(true, 0) };
        let reasons = build_reasons(&line(1, 0), &enriched(1, 1.0), &d, &base(), &figures());
        assert!(reasons[0].contains(name));
    }
    let d = FinalDet { z: Vec::new(), ..det(true, 0) };
    let reasons = build_reasons(&line(1, 0), &enriched(1, 1.0), &d, &base(), &figures());
    assert!(reasons[0].contains("hour(操作时刻)"));
}

#[test]
fn other_reasons_need_no_feature() {
    let mut z = vec![0.5; 9];
    z[8] = 4.0;
    let d = FinalDet { z: doubles(&z), ..det(true, 0) };
    let reasons = build_reasons(&line(1, 0), &enriched(1, 3.0), &d, &base(), &figures());
    assert_eq!(reasons, vec!["文件大小异常：812KB，超出该用户历史均值（101KB）约8.04倍"]);
    z[2] = 5.0;
    let d = FinalDet { z: doubles(&z), ..det(true, 0) };
    let reasons = build_reasons(&line(1, 0), &enriched(1, 1.0), &d, &base(), &figures());
    assert!(reasons[0].contains("sensitivity(密级)"));
}

#[test]
fn reported_lines_are_explained() {
    let mut logs = vec![line(2, 0), line(1, 1), line(2, 2)];
    logs[2].operation = "delete".to_string();
    logs[2].sensitivity = 4;
    let groups = group_by_user(&logs);
    let dets = vec![det(false, 1), det(true, 1), det(true, 2)];
    let rows = vec![enriched(1, 1.0), enriched(1, 1.0), enriched(1, 1.0)];
    let calm = UserBaseline { max_sensitivity: 9, ..base() };
    let all = vec![figures(), figures(), figures()];
    let found = explain_log(&logs, &rows, &dets, &groups, &vec![calm, base()], &all);
    assert_eq!(found.len(), 2);
    assert_eq!((found[0].line, found[0].user_id), (1, 1));
    assert_eq!((found[1].line, found[1].user_id), (2, 2));
    assert_eq!(found[1].timestamp, "2024-02-29 09:05:07");
    assert_eq!(found[1].operation, "delete");
    assert_eq!(found[1].sensitivity, 4);
    assert_eq!(found[1].risk_level, Risk::High);
    assert!(found[0].reasons[0].starts_with("多维特征统计偏离"));
    assert!(found[1].reasons[0].starts_with("敏感数据越权访问"));
    let reasons = reasons_by_line(3, &found);
    assert!(reasons[0].is_empty());
    assert_eq!(reasons[1], found[0].reasons);
    assert_eq!(reasons[2], found[1].reasons);
}

fn texts(n: usize, reasons: &[(usize, &str)]) -> Vec<Vec<String>> {
    let mut all = vec![Vec::new(); n];
    for (i, r) in reasons {
        all[*i].push(r.to_string());
    }
    all
}

#[test]
fn incidents_need_times_of_the_calendar() {
    let mut logs = vec![line(1, 9_000_000_000_000), line(1, -9_000_000_000_000)];
    assert!(is_timed(&logs));
    logs[1].timestamp.epoch -= 1;
    assert!(!is_timed(&logs));
    logs[1] = line(1, 0);
    logs[1].timestamp.minute = 60;
    assert!(!is_timed(&logs));
}

fn incidents_of(lines: &[(u32, i64, u32)]) -> Vec<Vec<usize>> {
    let logs: Vec<LogRecord> = lines.iter().map(|l| line(l.0, l.1)).collect();
    let dets: Vec<FinalDet> = lines.iter().map(|l| det(true, l.2)).collect();
    let found = aggregate_incidents(&logs, &dets, &texts(lines.len(), &[]));
    for i in &found {
        let (first, last) = (i.members[0], i.members[i.members.len() - 1]);
        assert_eq!(i.user_id, lines[first].0);
        assert_eq!(i.event_count, i.members.len());
        assert_eq!(i.duration_s, lines[last].1 - lines[first].1);
    }
    let parts: Vec<Vec<usize>> = found.into_iter().map(|i| i.members).collect();
    assert_eq!(divide(&logs, &dets, &(0..lines.len()).collect()), parts);
    parts
}

#[test]
fn close_lines_make_one_incident() {
    let logs = vec![line(1, 0), line(1, 90), line(1, 450), line(1, 811)];
    let dets = vec![det(true, 0), det(true, 2), det(true, 2), det(true, 2)];
    let reasons = texts(4, &[(0, "a"), (1, "b"), (1, "a"), (2, "c")]);
    let found = aggregate_incidents(&logs, &dets, &reasons);
    let members: Vec<Vec<usize>> = found.iter().map(|i| i.members.clone()).collect();
    assert_eq!(members, vec![vec![0, 1, 2], vec![3]]);
    assert_eq!(found[0].event_count, 3);
    assert_eq!(found[0].duration_s, 450);
    assert_eq!(
        found[0].reasons,
        vec![
            "批量行为事件：用户1在450秒窗口内连续产生3条同模式异常（DBSCAN同簇噪声）",
            "a",
            "b",
            "c"
        ]
    );
    assert_eq!(found[0].start, "2024-02-29 09:05:07");
    assert!(found[1].reasons.is_empty());
}

#[test]
fn another_user_does_not_split_an_incident() {
    assert_eq!(incidents_of(&[(1, 0, 1), (2, 5, 1), (1, 10, 1)]), vec![vec![0, 2], vec![1]]);
    assert_eq!(
        incidents_of(&[(1, 0, 1), (1, 91, 2), (2, 92, 2), (1, 93, 2)]),
        vec![vec![0], vec![1, 3], vec![2]]
    );
}

#[test]
fn the_lines_that_are_close_are_compared() {
    assert_eq!(incidents_of(&[(1, 0, 0), (1, 60, 2), (1, 260, 2)]), vec![vec![0, 1, 2]]);
    assert_eq!(
        incidents_of(&[(1, 0, 0), (1, 90, 2), (1, 450, 0), (1, 811, 0)]),
        vec![vec![0, 1], vec![2], vec![3]]
    );
    assert_eq!(incidents_of(&[(1, 0, 1), (1, 200, 2), (1, 300, 1)]), vec![vec![0, 2], vec![1]]);
    assert_eq!(
        incidents_of(&[(1, 0, 1), (1, 200, 2), (1, 300, 1), (1, 380, 2)]),
        vec![vec![0, 1, 2, 3]]
    );
    assert_eq!(incidents_of(&[(1, 0, 1), (1, 360, 1), (1, 721, 1)]), vec![vec![0, 1], vec![2]]);
}

#[test]
fn only_reported_lines_make_incidents() {
    let logs = vec![line(1, 0), line(1, 91), line(2, 92), line(1, 93)];
    let dets = vec![det(true, 5), det(false, 2), det(false, 2), det(true, 5)];
    let found = aggregate_incidents(&logs, &dets, &texts(4, &[]));
    assert_eq!(found.len(), 1);
    assert_eq!(
        found[0].reasons,
        vec!["批量行为事件：用户1在93秒窗口内连续产生2条同模式异常（DBSCAN同簇#5）"]
    );
    assert!(aggregate_incidents(&Vec::new(), &Vec::new(), &Vec::new()).is_empty());
}

#[test]
fn an_incident_keeps_six_reasons_and_the_worst_risk() {
    let mut logs = vec![line(1, 0), line(1, 1)];
    logs[1].sensitivity = 4;
    let dets = vec![det(true, 1), det(true, 1)];
    let reasons = texts(
        2,
        &[(0, "1"), (0, "2"), (0, "3"), (0, "4"), (1, "4"), (1, "5"), (1, "6"), (1, "7")],
    );
    let found = aggregate_incidents(&logs, &dets, &reasons);
    assert_eq!(found.len(), 1);
    assert_eq!(found[0].reasons[1..], ["1", "2", "3", "4", "5", "6"]);
    assert_eq!(found[0].max_risk, Risk::High);
}
