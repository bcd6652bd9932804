//! The whole detector, with its arithmetic in doubles done here.

use chrono::{Datelike, Local, NaiveDate};
use rand::rngs::StdRng;
use rand::Rng;
use rustguard::calendar::{is_weekend, Moment};
use rustguard::double::Double;
use rustguard::explain::{explain_log, reasons_by_line, Explanation, Figures};
use rustguard::features::{engineer_features, median, Enriched, Middle};
use rustguard::forest::{forest_seed, tree_path_length, ForestTrainer, IsolationForest};
use rustguard::fusion::{fuse, reported_lines, FinalDet, Fusion, DEFAULT_FUSION};
use rustguard::generate::{GenConfig, Generator, SizeDraw};
use rustguard::groups::{group_by_user, in_log_order, place_of, times_of, UserGroup};
use rustguard::hybrid::{
    baseline_lines, clip, dominant_cluster, feature_column, judge_log, points_labelled,
    robust_sigma, user_baseline, Evidence, HybOut, UserBaseline,
};
use rustguard::incidents::{aggregate_incidents, Incident};
use rustguard::metrics::{
    flags_of, metrics_of, recall_verdict, strongest_signals, tag_recall, Opinion,
};
use rustguard::record::LogRecord;
use smartcore::cluster::dbscan::{DBSCANParameters, DBSCAN};
use smartcore::linalg::basic::matrix::DenseMatrix;
use std::collections::HashMap;

const TOTAL_LOGS: usize = 500;
const DBSCAN_EPS: f64 = 0.5;
const Z_THRESHOLD: f64 = 3.0;

fn double(x: f64) -> Double {
    Double { bits: x.to_bits() }
}

fn float(x: Double) -> f64 {
    f64::from_bits(x.bits)
}

fn gaussian(rng: &mut StdRng, mean: f64, std: f64) -> f64 {
    let u1 = 1.0 - rng.gen::<f64>();
    let u2 = rng.gen::<f64>();
    let z = (-2.0 * u1.ln()).sqrt() * (2.0 * std::f64::consts::PI * u2).cos();
    mean + std * z
}

fn epoch_of(at: Moment) -> i64 {
    let date = NaiveDate::from_num_days_from_ce_opt(at.day).unwrap();
    let time = date.and_hms_opt(at.hour, at.minute, at.second).unwrap();
    time.and_local_timezone(Local).earliest().unwrap().timestamp()
}

fn draw_size(rng: &mut StdRng, plan: SizeDraw) -> f64 {
    match plan {
        SizeDraw::Usual => (gaussian(rng, 0.0, 1.0) * 0.30 + 4.605).exp(),
        SizeDraw::Between { lo, hi } => rng.gen_range(float(lo)..float(hi)),
        SizeDraw::Ramp { step } => 110.0 + 60.0 * step as f64 / 40.0,
    }
}

fn generate_logs(cfg: &GenConfig) -> Vec<LogRecord> {
    let today = Local::now().date_naive().num_days_from_ce();
    assert!(cfg.is_startable(today));
    let mut generator = Generator::new(cfg, today);
    while let Some(draft) = generator.next_draft().unwrap() {
        let epoch = epoch_of(draft.moment);
        let size = draw_size(&mut generator.rng, draft.size);
        generator.accept(epoch, double(size));
    }
    generator.finish()
}

fn enrich(logs: &Vec<LogRecord>, include_weekday: bool) -> Vec<Enriched> {
    let mut sums: HashMap<u32, f64> = HashMap::new();
    let rows = engineer_features(logs, include_weekday);
    let mut out = Vec::new();
    for (log, row) in logs.iter().zip(&rows) {
        let size = float(log.file_size_kb);
        let sum = sums.entry(log.user_id).or_insert(0.0);
        let ratio = match row.history {
            Some(earlier) => size / (*sum / earlier as f64),
            None => 1.0,
        };
        *sum += size;
        let mut features = vec![
            row.hour as f64 + row.minute as f64 / 60.0,
            (size + 1.0).ln(),
            row.sensitivity as f64,
            row.operation as f64,
            row.count5 as f64 / row.max_count as f64,
            ratio.ln(),
        ];
        if let Some(weekend) = row.weekend {
            features.push(if weekend { 1.0 } else { 0.0 });
        }
        out.push(Enriched {
            features: features.into_iter().map(double).collect(),
            count5: row.count5,
            max_count: row.max_count,
            ratio: double(ratio),
        });
    }
    out
}

fn median_of(vals: &mut Vec<Double>) -> f64 {
    match median(vals) {
        Middle::Empty => 0.0,
        Middle::One(m) => float(m),
        Middle::Two(a, b) => (float(a) + float(b)) / 2.0,
    }
}

fn median_f64(vals: &mut Vec<f64>) -> f64 {
    let mut doubles: Vec<Double> = vals.iter().map(|v| double(*v)).collect();
    median_of(&mut doubles)
}

fn deviations(enriched: &Vec<Enriched>, members: &Vec<usize>, dim: usize) -> Vec<Vec<f64>> {
    let most = enriched[0].max_count as f64;
    let mut med = vec![0.0; dim];
    let mut sig = vec![0.0; dim];
    for f in 0..dim {
        let mut col = feature_column(enriched, members, f);
        med[f] = median_of(&mut col);
        let mut dev: Vec<Double> =
            col.iter().map(|x| double((float(*x) - med[f]).abs())).collect();
        let scaled = 1.4826 * median_of(&mut dev);
        sig[f] = float(robust_sigma(f, double(scaled), double(2.0 / most)));
    }
    members
        .iter()
        .map(|&i| {
            let row = &enriched[i].features;
            (0..dim).map(|f| (float(row[f]) - med[f]) / sig[f]).collect()
        })
        .collect()
}

fn cluster_labels(zs: &[Vec<Double>], eps: f64) -> Vec<u32> {
    let scaled: Vec<Vec<f64>> =
        zs.iter().map(|z| clip(z).iter().map(|v| float(*v) / 4.0).collect()).collect();
    let x = DenseMatrix::from_2d_vec(&scaled).unwrap();
    let parameters = DBSCANParameters::default().with_eps(eps).with_min_samples(3);
    DBSCAN::fit(&x, parameters).unwrap().predict(&x).unwrap()
}

fn distances(zs: &[Vec<f64>], labels: &Vec<u32>, dominant: Option<u32>) -> Vec<f64> {
    let d = match dominant {
        Some(d) => d,
        None => return vec![f64::INFINITY; zs.len()],
    };
    let points = points_labelled(labels, d);
    let dim = zs[0].len();
    let mut centre = vec![0.0; dim];
    for &j in &points {
        for f in 0..dim {
            centre[f] += zs[j][f];
        }
    }
    for c in centre.iter_mut() {
        *c /= points.len() as f64;
    }
    zs.iter()
        .map(|z| {
            let squares = z.iter().zip(&centre).map(|(a, b)| (a - b) * (a - b));
            squares.sum::<f64>().sqrt()
        })
        .collect()
}

fn detect_hybrid(
    logs: &Vec<LogRecord>,
    enriched: &Vec<Enriched>,
    groups: &Vec<UserGroup>,
    eps: f64,
    z_thr: f64,
) -> (Vec<HybOut>, Vec<UserBaseline>) {
    let dim = enriched[0].features.len();
    let mut evidence = Vec::new();
    for group in groups {
        let members = &group.members;
        let zs = deviations(enriched, members, dim);
        let z: Vec<Vec<Double>> =
            zs.iter().map(|row| row.iter().map(|v| double(*v)).collect()).collect();
        let labels = cluster_labels(&z, eps);
        let dists = distances(&zs, &labels, dominant_cluster(&labels));
        evidence.push(Evidence::new(
            z,
            double(z_thr),
            labels,
            dists.into_iter().map(double).collect(),
            times_of(logs, members),
        ));
    }
    let mut baselines = Vec::new();
    for lines in &baseline_lines(groups, &evidence) {
        let sum: f64 = lines.iter().map(|&i| float(logs[i].file_size_kb)).sum();
        let mean = double(sum / lines.len() as f64);
        baselines.push(user_baseline(logs, enriched, lines, mean));
    }
    (judge_log(logs, groups, &evidence), baselines)
}

fn avg_bst_unsuccessful(n: usize) -> f64 {
    if n <= 1 {
        0.0
    } else if n == 2 {
        1.0
    } else {
        let m = n as f64;
        2.0 * ((m - 1.0).ln() + 0.5772156649015329) - 2.0 * (m - 1.0) / m
    }
}

fn if_train(rows: Vec<Vec<Double>>, seed: u64) -> IsolationForest {
    let mut trainer = ForestTrainer::new(rows, seed);
    let mut asked = trainer.next_split();
    while let Some((lo, hi)) = asked {
        let split = trainer.rng.gen_range(float(lo)..float(hi));
        asked = trainer.give_split(double(split));
    }
    trainer.finish()
}

fn if_score(forest: &IsolationForest, x: &Vec<Double>) -> f64 {
    let c_sub = avg_bst_unsuccessful(forest.sub);
    if c_sub <= 0.0 || forest.trees.is_empty() {
        return 0.0;
    }
    let mut sum = 0.0;
    for t in &forest.trees {
        let (steps, left) = tree_path_length(t, x);
        sum += steps as f64 + avg_bst_unsuccessful(left);
    }
    (-(sum / forest.trees.len() as f64) * std::f64::consts::LN_2 / c_sub).exp()
}

fn detect_iforest(
    logs: &Vec<LogRecord>,
    enriched: &[Enriched],
    groups: &Vec<UserGroup>,
) -> Vec<Double> {
    let mut found: Vec<Vec<Double>> = Vec::new();
    for group in groups {
        let rows: Vec<Vec<Double>> =
            group.members.iter().map(|&i| enriched[i].features.clone()).collect();
        let forest = if_train(rows.clone(), forest_seed(group.user));
        found.push(rows.iter().map(|x| double(if_score(&forest, x))).collect());
    }
    in_log_order(logs, groups, &found)
}

struct PipelineResult {
    logs: Vec<LogRecord>,
    dets: Vec<FinalDet>,
    explanations: Vec<Explanation>,
    incidents: Vec<Incident>,
}

impl PipelineResult {
    fn detection_rate(&self, opinion: Opinion) -> f64 {
        let m = metrics_of(&flags_of(&self.dets, opinion), &self.logs);
        percent(m.true_positives, m.true_positives + m.false_negatives)
    }

    fn precision(&self, opinion: Opinion) -> f64 {
        let m = metrics_of(&flags_of(&self.dets, opinion), &self.logs);
        percent(m.true_positives, m.predicted)
    }
}

fn percent(part: usize, whole: usize) -> f64 {
    if whole > 0 {
        (100.0 * part as f64 / whole as f64 * 10.0).round() / 10.0
    } else {
        0.0
    }
}

fn run_pipeline(
    cfg: &GenConfig,
    fusion: Fusion,
    weekday: bool,
    eps: f64,
    z_thr: f64,
) -> PipelineResult {
    let logs = generate_logs(cfg);
    let enriched = enrich(&logs, weekday);
    let groups = group_by_user(&logs);
    let (hyb, baselines) = detect_hybrid(&logs, &enriched, &groups, eps, z_thr);
    let raw = detect_iforest(&logs, &enriched, &groups);
    let scores: Vec<Double> = hyb
        .iter()
        .zip(&raw)
        .map(|(h, r)| {
            let z = float(h.max_z);
            let s_h = -(z / (z + 6.0));
            let s_i = (1.0 - 2.0 * float(*r)).clamp(-1.0, 1.0);
            double(((s_h + s_i) / 2.0).clamp(-1.0, 1.0))
        })
        .collect();
    let dets = fuse(fusion, &hyb, &raw, &scores);
    let figures: Vec<Figures> = (0..logs.len())
        .map(|i| {
            let base = &baselines[place_of(&logs, &groups, i).0];
            Figures {
                size: format!("{:.0}", float(logs[i].file_size_kb)),
                mean: format!("{:.0}", float(base.mean_file_size_kb)),
                ratio: format!("{:.2}", float(enriched[i].ratio)),
                max_z: format!("{:.1}", float(dets[i].max_z)),
            }
        })
        .collect();
    let explanations = explain_log(&logs, &enriched, &dets, &groups, &baselines, &figures);
    let reasons = reasons_by_line(logs.len(), &explanations);
    let incidents = aggregate_incidents(&logs, &dets, &reasons);
    PipelineResult { logs, dets, explanations, incidents }
}

#[test]
fn generator_invariants() {
    let cfg = GenConfig::default_();
    let logs = generate_logs(&cfg);
    assert_eq!(logs.len(), TOTAL_LOGS);
    assert_eq!(logs.iter().filter(|l| l.is_anomaly).count(), 25);
    assert_eq!(logs.iter().filter(|l| l.scenario_tag == 1).count(), 4);
    assert_eq!(logs.iter().filter(|l| l.scenario_tag == 2).count(), 12);
    assert_eq!(logs.iter().filter(|l| l.scenario_tag == 3).count(), 5);
    assert_eq!(logs.iter().filter(|l| l.scenario_tag == 4).count(), 4);
    for l in logs.iter().filter(|l| !l.is_anomaly) {
        assert!(!is_weekend(l.timestamp.day), "正常日志出现在周末: {:?}", l.timestamp);
        assert!((9..18).contains(&l.timestamp.hour));
    }
}

#[test]
fn median_basics() {
    assert_eq!(median_f64(&mut vec![3.0, 1.0, 2.0]), 2.0);
    assert_eq!(median_f64(&mut vec![4.0, 1.0, 3.0, 2.0]), 2.5);
    assert_eq!(median_f64(&mut vec![7.0]), 7.0);
    assert_eq!(median_f64(&mut vec![]), 0.0);
}

#[test]
fn feature_engineering_bounds() {
    let logs = generate_logs(&GenConfig::default_());
    let e6 = enrich(&logs, false);
    let e7 = enrich(&logs, true);
    assert_eq!(e6[0].features.len(), 6);
    assert_eq!(e7[0].features.len(), 7);
    let mut per_user: HashMap<u32, usize> = HashMap::new();
    for (i, l) in logs.iter().enumerate() {
        let c = per_user.entry(l.user_id).or_insert(0);
        if *c < 10 {
            assert_eq!(float(e6[i].ratio), 1.0, "前10条不应产生偏离度信号");
        }
        *c += 1;
    }
    let mx = e6.iter().map(|e| float(e.features[4])).fold(0.0f64, f64::max);
    assert!((mx - 1.0).abs() < 1e-9);
}

#[test]
fn isolation_forest_separates_outlier() {
    let mut rows: Vec<Vec<f64>> = (0..80)
        .map(|i| vec![13.0 + (i % 5) as f64 * 0.1, 4.6, 2.0, 1.0, 0.08, 1.0])
        .collect();
    let outlier = vec![3.0, 7.4, 2.0, 1.0, 1.0, 15.0];
    rows.push(outlier.clone());
    let table: Vec<Vec<Double>> =
        rows.iter().map(|r| r.iter().map(|v| double(*v)).collect()).collect();
    let forest = if_train(table.clone(), 7);
    let s_out = if_score(&forest, &table[80]);
    let mut normals: Vec<f64> = table[..80].iter().map(|r| if_score(&forest, r)).collect();
    let med = median_f64(&mut normals);
    assert!(
        s_out > med + 0.15,
        "离群点分数({:.3})应明显高于正常中位数({:.3})",
        s_out,
        med
    );
}

#[test]
fn pipeline_smoke_recall() {
    let cfg = GenConfig::default_();
    let res = run_pipeline(&cfg, DEFAULT_FUSION, false, DBSCAN_EPS, Z_THRESHOLD);
    assert!(
        res.detection_rate(Opinion::Final) >= 80.0,
        "终判检出率回归: {:.1}%",
        res.detection_rate(Opinion::Final)
    );
    assert!(
        res.incidents.iter().any(|i| i.event_count >= 6),
        "连击下载应被聚合为批量事件"
    );
}

#[test]
fn other_seeds_do_as_well() {
    for seed in 1..=5 {
        let cfg = GenConfig { seed, ..GenConfig::default_() };
        let res = run_pipeline(&cfg, DEFAULT_FUSION, false, DBSCAN_EPS, Z_THRESHOLD);
        assert!(res.detection_rate(Opinion::Final) >= 95.0);
        assert!(res.precision(Opinion::Final) >= 90.0);
        assert!(res.detection_rate(Opinion::Forest) >= 40.0);
    }
}

#[test]
fn a_seed_gives_the_same_log() {
    let cfg = GenConfig { unknown: true, seed: 11, ..GenConfig::default_() };
    let (x, y) = (generate_logs(&cfg), generate_logs(&cfg));
    let other = generate_logs(&GenConfig { seed: 12, ..cfg });
    assert_eq!(x.len(), 566);
    assert_eq!(format!("{:?}", x), format!("{:?}", y));
    assert_ne!(format!("{:?}", x), format!("{:?}", other));
}

#[test]
fn a_seed_gives_the_same_forest() {
    let rows: Vec<Vec<Double>> = (0..300)
        .map(|i| vec![double((i * 7 % 31) as f64), double((i * i % 113) as f64)])
        .collect();
    let shapes = |seed: u64| {
        let forest = if_train(rows.clone(), seed);
        forest.trees.into_iter().map(|t| t.nodes).collect::<Vec<_>>()
    };
    assert_eq!(shapes(8), shapes(8));
    assert_ne!(shapes(8), shapes(9));
}

#[test]
fn scenarios_beyond_the_standard_ones() {
    let cfg = GenConfig { unknown: true, seed: 500, ..GenConfig::default_() };
    assert_eq!(cfg.injected(), 91);
    let logs = generate_logs(&cfg);
    assert_eq!(logs.len(), 566);
    let of = |tag: u8| logs.iter().filter(move |l| l.scenario_tag == tag);
    assert_eq!([5, 6, 7, 8].map(|tag| of(tag).count()), [15, 6, 40, 5]);
    let first = of(5).next().unwrap().timestamp.epoch;
    for (j, l) in of(5).enumerate() {
        assert_eq!((l.user_id, l.operation.as_str()), (5, "delete"));
        assert_eq!(l.timestamp.epoch, first + 18 * j as i64);
        assert!((50.0..120.0).contains(&float(l.file_size_kb)));
    }
    for l in of(6) {
        assert_eq!(l.user_id, 4);
        assert!(is_weekend(l.timestamp.day));
        assert!((10..17).contains(&l.timestamp.hour));
        assert!(l.operation == "view" || l.operation == "edit");
    }
    let today = Local::now().date_naive().num_days_from_ce();
    for (k, l) in of(7).enumerate() {
        assert_eq!(l.user_id, 1);
        assert_eq!(today - l.timestamp.day, (((39 - k) as f64 / 40.0) * 90.0) as i32);
        assert_eq!(float(l.file_size_kb), 110.0 + 1.5 * k as f64);
    }
    let users: Vec<u32> = of(8).map(|l| l.user_id).collect();
    assert_eq!(users.len(), 5);
    assert!((1..=5).all(|u| users.contains(&u)));
    assert!(of(8).all(|l| (11..13).contains(&l.timestamp.hour)));
    for l in logs.iter() {
        assert_eq!(l.is_anomaly, l.scenario_tag != 0);
    }
    for user in 1..=5 {
        assert_eq!(of(0).filter(|l| l.user_id == user).count(), 95);
    }
}

#[test]
fn sizes_and_levels_of_the_scenarios() {
    let logs = generate_logs(&GenConfig::default_());
    let sizes = |tag: u8| -> Vec<f64> {
        logs.iter().filter(|l| l.scenario_tag == tag).map(|l| float(l.file_size_kb)).collect()
    };
    assert!(sizes(1).iter().all(|s| (600.0..1600.0).contains(s)));
    assert!(sizes(2).iter().all(|s| (350.0..700.0).contains(s)));
    assert!(sizes(3).iter().all(|s| (280.0..450.0).contains(s)));
    assert!(sizes(4).iter().all(|s| (1200.0..2500.0).contains(s)));
    for l in &logs {
        match l.scenario_tag {
            1 | 4 => assert_eq!(l.sensitivity, 2),
            3 => assert_eq!(l.sensitivity, 5),
            _ => assert!((1..=2).contains(&l.sensitivity)),
        }
        if l.scenario_tag == 1 {
            assert!(l.timestamp.hour < 6);
        }
    }
    let burst: Vec<&LogRecord> = logs.iter().filter(|l| l.scenario_tag == 2).collect();
    for (j, l) in burst.iter().enumerate() {
        assert_eq!(l.user_id, burst[0].user_id);
        let seconds = 14 * 3600 + 10 * 60 + 18 * j as u32;
        assert_eq!(
            (l.timestamp.hour, l.timestamp.minute, l.timestamp.second),
            (seconds / 3600, seconds / 60 % 60, seconds % 60)
        );
    }
}

#[test]
fn logs_are_in_order_of_time() {
    let logs = generate_logs(&GenConfig { unknown: true, ..GenConfig::default_() });
    for w in logs.windows(2) {
        let key = |l: &LogRecord| (l.timestamp.epoch, l.user_id);
        assert!(key(&w[0]) <= key(&w[1]));
    }
}

#[test]
fn verdicts_explanations_and_incidents_fit_together() {
    let cfg = GenConfig { unknown: true, seed: 500, ..GenConfig::default_() };
    for fusion in
        [Fusion::Hybrid, Fusion::And, Fusion::Or, Fusion::Vote, Fusion::Smart, Fusion::Boost]
    {
        let res = run_pipeline(&cfg, fusion, true, DBSCAN_EPS, Z_THRESHOLD);
        let lines = reported_lines(&res.dets);
        assert_eq!(res.explanations.iter().map(|e| e.line).collect::<Vec<_>>(), lines);
        let mut held: Vec<usize> =
            res.incidents.iter().flat_map(|i| i.members.iter().copied()).collect();
        held.sort();
        assert_eq!(held, lines);
        assert_eq!(flags_of(&res.dets, Opinion::Final), flags_of(&res.dets, Opinion::Rule(fusion)));
        for e in &res.explanations {
            assert_eq!(e.user_id, res.logs[e.line].user_id);
            assert!(!e.reasons.is_empty());
        }
        for d in &res.dets {
            assert_eq!(d.pred, if d.final_anom { -1 } else { 1 });
        }
        let few = flags_of(&res.dets, Opinion::Forest).iter().filter(|f| **f).count();
        assert!(few <= 28);
    }
}

#[test]
fn a_weekend_feature_finds_weekend_access() {
    let cfg = GenConfig { unknown: true, seed: 500, ..GenConfig::default_() };
    let six = run_pipeline(&cfg, DEFAULT_FUSION, false, DBSCAN_EPS, Z_THRESHOLD);
    let seven = run_pipeline(&cfg, DEFAULT_FUSION, true, DBSCAN_EPS, Z_THRESHOLD);
    let (hit6, total6) = tag_recall(&six.logs, &six.dets, 6);
    let (hit7, total7) = tag_recall(&seven.logs, &seven.dets, 6);
    assert_eq!((total6, total7), (6, 6));
    assert!(hit7 >= hit6);
    assert_eq!(hit7, 6);
    assert_eq!(recall_verdict(double(100.0 * hit7 as f64 / total7 as f64)), "✓特征可表达");
    let (z6, _) = strongest_signals(&six.logs, &six.dets, 6);
    let (z7, _) = strongest_signals(&seven.logs, &seven.dets, 6);
    assert!(z7.gt(z6));
}

#[test]
fn a_user_is_judged_alone() {
    let cfg = GenConfig { seed: 3, ..GenConfig::default_() };
    let logs = generate_logs(&cfg);
    let enriched = enrich(&logs, false);
    let groups = group_by_user(&logs);
    let (all, baselines) = detect_hybrid(&logs, &enriched, &groups, DBSCAN_EPS, Z_THRESHOLD);
    let raw = detect_iforest(&logs, &enriched, &groups);
    for (g, group) in groups.iter().enumerate() {
        let own: Vec<LogRecord> = group.members.iter().map(|&i| logs[i].clone()).collect();
        let rows: Vec<Enriched> = group
            .members
            .iter()
            .map(|&i| Enriched {
                features: enriched[i].features.clone(),
                count5: enriched[i].count5,
                max_count: enriched[i].max_count,
                ratio: enriched[i].ratio,
            })
            .collect();
        let alone = group_by_user(&own);
        assert_eq!(alone.len(), 1);
        let (mine, base) = detect_hybrid(&own, &rows, &alone, DBSCAN_EPS, Z_THRESHOLD);
        assert_eq!(base, vec![baselines[g]]);
        let scores = detect_iforest(&own, &rows, &alone);
        for (k, &i) in group.members.iter().enumerate() {
            assert_eq!(format!("{:?}", mine[k]), format!("{:?}", all[i]));
            assert_eq!(scores[k], raw[i]);
        }
    }
}
