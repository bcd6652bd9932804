//! Numbers, texts, days, features and trees, on given values.

use chrono::{Datelike, NaiveDate};
use rand::rngs::StdRng;
use rand::{Rng, SeedableRng};
use rustguard::calendar::{
    is_weekend, is_workday_back, later, make_time, settle_draw, weekend_candidates,
    weekend_day_back, workday_offset, Moment, Stamp, TimeError, FIRST_DAY, LAST_DAY,
};
use rustguard::double::{copy_doubles, Double};
use rustguard::features::{engineer_features, median, Middle};
use rustguard::forest::{
    depth_limit, forest_seed, sample_from, settle_try, subsample, tree_path_length, ForestTrainer,
    IfNode, IfTree, Try, NO_CHILD,
};
use rustguard::generate::{GenConfig, Generator, SizeDraw};
use rustguard::order::{sort_doubles, stable_order};
use rustguard::record::LogRecord;
use rustguard::text::{decimal_text, same_text, signed_text, two_digit_text};

fn double(x: f64) -> Double {
    Double { bits: x.to_bits() }
}

fn doubles(xs: &[f64]) -> Vec<Double> {
    xs.iter().map(|x| double(*x)).collect()
}

fn day(y: i32, m: u32, d: u32) -> i32 {
    NaiveDate::from_ymd_opt(y, m, d).unwrap().num_days_from_ce()
}

const SAMPLES: [f64; 12] = [
    f64::NEG_INFINITY,
    -1.5e300,
    -2.4,
    -f64::MIN_POSITIVE,
    -5e-324,
    -0.0,
    0.0,
    5e-324,
    0.1,
    3.0,
    f64::MAX,
    f64::INFINITY,
];

#[test]
fn doubles_compare_as_numbers() {
    for x in SAMPLES {
        for y in SAMPLES {
            assert_eq!(double(x).gt(double(y)), x > y);
            assert_eq!(double(x).ge(double(y)), x >= y);
            assert_eq!(f64::from_bits(double(x).max(double(y)).bits), x.max(y));
        }
        assert_eq!(double(x).abs(), double(x.abs()));
        assert!(!double(x).is_nan());
    }
}

#[test]
fn a_nan_compares_with_nothing() {
    let nan = double(f64::NAN);
    assert!(nan.is_nan() && double(-f64::NAN).is_nan());
    for x in SAMPLES {
        assert!(!nan.gt(double(x)) && !double(x).gt(nan));
        assert!(!nan.ge(double(x)) && !double(x).ge(nan));
        assert_eq!(nan.max(double(x)), double(x));
        assert_eq!(double(x).max(nan), double(x));
    }
}

#[test]
fn doubles_are_sorted() {
    let mut xs = doubles(&[2.0, -1.0, 0.5, f64::INFINITY, -3.0, 0.5]);
    let copy = copy_doubles(&xs);
    sort_doubles(&mut xs);
    assert_eq!(xs, doubles(&[-3.0, -1.0, 0.5, 0.5, 2.0, f64::INFINITY]));
    assert_eq!(copy, doubles(&[2.0, -1.0, 0.5, f64::INFINITY, -3.0, 0.5]));
}

#[test]
fn equal_keys_keep_their_order() {
    let keys = vec![(5, 1), (3, 9), (5, 0), (3, 9), (-2, 4)];
    assert_eq!(stable_order(&keys), vec![4, 1, 3, 2, 0]);
    assert_eq!(stable_order(&Vec::new()), Vec::<usize>::new());
}

#[test]
fn the_middle_of_numbers() {
    assert_eq!(median(&mut doubles(&[3.0, 1.0, 2.0])), Middle::One(double(2.0)));
    let mut four = doubles(&[4.0, 1.0, 3.0, 2.0]);
    assert_eq!(median(&mut four), Middle::Two(double(2.0), double(3.0)));
    assert_eq!(four, doubles(&[1.0, 2.0, 3.0, 4.0]));
    assert_eq!(median(&mut Vec::new()), Middle::Empty);
}

#[test]
fn numbers_in_decimal() {
    for n in [0, 7, 10, 99, 100, 12345, u64::MAX] {
        assert_eq!(decimal_text(n), n.to_string());
        assert_eq!(two_digit_text(n), format!("{:02}", n));
    }
    for n in [0, 42, -1, -90, i64::MAX, i64::MIN] {
        assert_eq!(signed_text(n), n.to_string());
    }
    assert!(same_text("密级", "密级"));
    assert!(!same_text("密级", "密"));
}

#[test]
fn days_of_the_week() {
    assert!(is_weekend(day(2024, 3, 2)));
    assert!(is_weekend(day(2024, 3, 3)));
    for d in 4..=8 {
        assert!(!is_weekend(day(2024, 3, d)));
    }
    assert!(is_workday_back(day(2024, 3, 4), 3));
    assert!(!is_workday_back(day(2024, 3, 4), 1));
    assert!(!is_workday_back(FIRST_DAY, 1));
    assert_eq!(NaiveDate::MIN.num_days_from_ce(), FIRST_DAY);
    assert_eq!(NaiveDate::MAX.num_days_from_ce(), LAST_DAY);
}

#[test]
fn moments_are_built() {
    let today = day(2024, 3, 4);
    let at = Moment { day: day(2024, 2, 29), hour: 23, minute: 59, second: 58 };
    assert_eq!(make_time(today, 4, 23, 59, 58), Ok(at));
    assert_eq!(make_time(today, 4, 24, 0, 0), Err(TimeError::BadClock));
    assert_eq!(make_time(today, 4, 0, 60, 0), Err(TimeError::BadClock));
    assert_eq!(make_time(today, 4, 0, 0, 60), Err(TimeError::BadClock));
    assert_eq!(make_time(today, u64::MAX, 0, 0, 0), Err(TimeError::DayUnderflow));
    assert_eq!(make_time(FIRST_DAY, 1, 99, 0, 0), Err(TimeError::DayUnderflow));
    assert_eq!(
        later(at, 3),
        Moment { day: day(2024, 3, 1), hour: 0, minute: 0, second: 1 }
    );
    let stamp = Stamp { epoch: 5, day: at.day, hour: 23, minute: 59, second: 58 };
    assert_eq!(stamp.local(), at);
    assert_eq!(at.shown(), "2024-02-29 23:59:58");
    assert_eq!(at.shown_short(), "02-29 23:59:58");
    assert!(stamp.is_valid());
    assert!(!Stamp { hour: 24, ..stamp }.is_valid());
    assert!(!Stamp { minute: 60, ..stamp }.is_valid());
    assert!(!Stamp { second: 60, ..stamp }.is_valid());
    assert!(!Stamp { day: LAST_DAY + 1, ..stamp }.is_valid());
}

#[test]
fn draws_settle_a_workday() {
    let monday = day(2024, 3, 4);
    assert_eq!(settle_draw(monday, 0, 3), Some(3));
    assert_eq!(settle_draw(monday, 29, 0), Some(0));
    assert_eq!(settle_draw(monday, 0, 2), None);
    assert_eq!(settle_draw(monday, 28, 1), None);
    assert_eq!(settle_draw(monday, 29, 2), Some(0));
    assert_eq!(settle_draw(day(2024, 3, 2), 29, 0), Some(1));
    assert_eq!(settle_draw(day(2024, 3, 3), 29, 1), Some(2));
    assert_eq!(settle_draw(FIRST_DAY + 2, 29, 6), Some(1));
}

#[test]
fn workdays_and_weekends_are_drawn() {
    let monday = day(2024, 3, 4);
    assert_eq!(weekend_candidates(monday), vec![1, 2, 8, 9]);
    let saturday = day(2024, 3, 2);
    assert_eq!(weekend_candidates(saturday), vec![6, 7, 13]);
    assert!(weekend_candidates(FIRST_DAY).is_empty());
    let mut rng = StdRng::seed_from_u64(3);
    for _ in 0..200 {
        let back = workday_offset(&mut rng, saturday);
        assert!(back < 7 && is_workday_back(saturday, back));
        assert!([1, 2, 8, 9].contains(&weekend_day_back(&mut rng, monday)));
    }
    assert_eq!(weekend_day_back(&mut rng, FIRST_DAY), 6);
}

#[test]
fn draws_follow_from_the_generator() {
    let monday = day(2024, 3, 4);
    let (mut a, mut b) = (StdRng::seed_from_u64(21), StdRng::seed_from_u64(21));
    for _ in 0..50 {
        let back = workday_offset(&mut a, monday);
        let mut drawn = b.gen_range(0..7u64);
        while !is_workday_back(monday, drawn) {
            drawn = b.gen_range(0..7u64);
        }
        assert_eq!(back, drawn);
        let backs = weekend_candidates(monday);
        assert_eq!(weekend_day_back(&mut a, monday), backs[b.gen_range(0..backs.len())]);
        let exchanges = vec![b.gen_range(0..9usize), b.gen_range(1..9), b.gen_range(2..9)];
        assert_eq!(subsample(&mut a, 9, 3), sample_from(9, &exchanges));
        assert!(a == b);
    }
}

fn line(user_id: u32, epoch: i64, d: i32, operation: &str) -> LogRecord {
    LogRecord {
        user_id,
        timestamp: Stamp { epoch, day: d, hour: 14, minute: 30, second: 0 },
        operation: operation.to_string(),
        file_size_kb: double(64.0),
        sensitivity: 2,
        is_anomaly: true,
        scenario_tag: 2,
    }
}

#[test]
fn windows_last_five_minutes() {
    let d = day(2024, 3, 2);
    let mut logs = vec![
        line(1, 0, d, "view"),
        line(1, 200, d, "download"),
        line(2, 250, d, "edit"),
        line(1, 300, d, "delete"),
        line(1, 301, d, "copy"),
        line(1, 602, d + 2, "view"),
    ];
    let rows = engineer_features(&logs, true);
    let counts: Vec<usize> = rows.iter().map(|r| r.count5).collect();
    assert_eq!(counts, vec![1, 2, 1, 3, 3, 1]);
    assert!(rows.iter().all(|r| r.max_count == 3 && r.history.is_none()));
    let codes: Vec<i64> = rows.iter().map(|r| r.operation).collect();
    assert_eq!(codes, vec![0, 1, 2, 3, -1, 0]);
    assert_eq!(rows[0].weekend, Some(true));
    assert_eq!(rows[5].weekend, Some(false));
    assert_eq!((rows[0].hour, rows[0].minute, rows[0].sensitivity), (14, 30, 2));
    assert_eq!(engineer_features(&logs, false)[0].weekend, None);
    logs.truncate(0);
    assert!(engineer_features(&logs, true).is_empty());
}

#[test]
fn ratios_need_ten_earlier_lines() {
    let logs: Vec<LogRecord> = (0..12).map(|i| line(1, i * 1000, 1, "view")).collect();
    let rows = engineer_features(&logs, false);
    assert!(rows[..10].iter().all(|r| r.history.is_none()));
    assert_eq!((rows[10].history, rows[11].history), (Some(10), Some(11)));
}

#[test]
fn features_ignore_labels_and_later_lines() {
    let logs: Vec<LogRecord> = (0..15).map(|i| line(1, i * 40, 1, "view")).collect();
    let rows = engineer_features(&logs, false);
    let relabelled: Vec<LogRecord> = logs
        .iter()
        .map(|l| LogRecord { is_anomaly: false, scenario_tag: 0, ..l.clone() })
        .collect();
    assert_eq!(engineer_features(&relabelled, false), rows);
    let start = engineer_features(&logs[..6].to_vec(), false);
    for i in 0..6 {
        assert_eq!((start[i].count5, start[i].history), (rows[i].count5, rows[i].history));
    }
}

#[test]
fn depth_limits() {
    let table =
        [(0, 1), (1, 1), (2, 1), (3, 2), (4, 2), (5, 3), (95, 7), (256, 8), (257, 9)];
    for (n, limit) in table {
        assert_eq!(depth_limit(n), limit);
    }
}

#[test]
fn exchanges_settle_a_sample() {
    assert_eq!(sample_from(5, &vec![2, 1, 4]), vec![2, 1, 4]);
    assert_eq!(sample_from(4, &vec![3, 3, 3]), vec![3, 0, 1]);
    assert_eq!(sample_from(3, &vec![0, 1, 2]), vec![0, 1, 2]);
    assert_eq!(sample_from(3, &Vec::new()), Vec::<usize>::new());
}

#[test]
fn samples_hold_nothing_twice() {
    let mut rng = StdRng::seed_from_u64(9);
    let mut sample = subsample(&mut rng, 300, 256);
    assert_eq!(sample.len(), 256);
    assert_ne!(sample, (0..256).collect::<Vec<usize>>());
    sample.sort();
    sample.dedup();
    assert_eq!(sample.len(), 256);
    assert!(sample.iter().all(|i| *i < 300));
}

#[test]
fn seeds_differ_between_users() {
    assert_eq!(forest_seed(0), 0x9E37_79B9_7F4A_7C15);
    assert_eq!(forest_seed(5), 0x9E37_79B9_7F4A_7C10);
}

#[test]
fn a_row_runs_down_a_tree() {
    let node = |feat, split, left, right, size| IfNode {
        feat,
        split: double(split),
        left,
        right,
        size,
    };
    let t = IfTree {
        nodes: vec![
            node(1, 2.0, 1, 2, 0),
            node(0, 0.0, NO_CHILD, NO_CHILD, 4),
            node(0, -1.0, 3, 4, 0),
            node(0, 0.0, NO_CHILD, NO_CHILD, 1),
            node(0, 0.0, NO_CHILD, NO_CHILD, 7),
        ],
        root: 0,
    };
    assert_eq!(tree_path_length(&t, &doubles(&[0.0, 1.9])), (1, 4));
    assert_eq!(tree_path_length(&t, &doubles(&[-1.5, 2.0])), (2, 1));
    assert_eq!(tree_path_length(&t, &doubles(&[-1.0, 2.0])), (2, 7));
}

#[test]
fn equal_rows_stay_together() {
    let mut trainer = ForestTrainer::new(vec![doubles(&[1.0, 2.0]); 5], 1);
    assert_eq!(trainer.next_split(), None);
    let forest = trainer.finish();
    assert_eq!((forest.trees.len(), forest.sub), (100, 5));
    for t in &forest.trees {
        assert_eq!(t.nodes.len(), 1);
        assert_eq!((t.nodes[0].left, t.nodes[0].right), (NO_CHILD, NO_CHILD));
        assert_eq!(tree_path_length(t, &doubles(&[1.0, 2.0])), (0, 5));
    }
}

#[test]
fn a_column_settles_a_try() {
    let rows = vec![doubles(&[1.0, 7.0]), doubles(&[3.0, 7.0]), doubles(&[-2.0, 8.0])];
    let all = vec![0, 1, 2];
    let asked = Try::Ask { lo: double(-2.0), hi: double(3.0) };
    assert_eq!(settle_try(&rows, &all, 0, 0), asked);
    assert_eq!(settle_try(&rows, &all, 0, 9), asked);
    assert_eq!(settle_try(&rows, &vec![0, 1], 1, 0), Try::Again);
    assert_eq!(settle_try(&rows, &vec![0, 1], 1, 8), Try::Again);
    assert_eq!(settle_try(&rows, &vec![0, 1], 1, 9), Try::Leaf);
}

#[test]
fn trees_of_a_large_table() {
    let rows: Vec<Vec<Double>> =
        (0..1024).map(|i| doubles(&[(i % 37) as f64, i as f64])).collect();
    let mut trainer = ForestTrainer::new(rows.clone(), 5);
    let mut asked = trainer.next_split();
    while let Some((lo, hi)) = asked {
        let (lo, hi) = (f64::from_bits(lo.bits), f64::from_bits(hi.bits));
        asked = trainer.give_split(double(lo + (hi - lo) * 0.37));
    }
    let forest = trainer.finish();
    assert_eq!(forest.sub, 256);
    for t in &forest.trees {
        assert!(rows.iter().all(|x| tree_path_length(t, x).0 <= 8));
        let leaves: Vec<&IfNode> = t.nodes.iter().filter(|n| n.left == NO_CHILD).collect();
        assert_eq!(t.nodes.len() + 1, 2 * leaves.len());
        assert_eq!(leaves.iter().map(|n| n.size).sum::<usize>(), 256);
        assert!(leaves.iter().all(|n| n.right == NO_CHILD));
        let mut parents = vec![0; t.nodes.len()];
        for n in t.nodes.iter().filter(|n| n.left != NO_CHILD) {
            parents[n.left] += 1;
            parents[n.right] += 1;
        }
        assert!(parents[0] == 0 && parents[1..].iter().all(|p| *p == 1));
    }
}

#[test]
fn a_split_sets_two_rows_apart() {
    let rows = vec![doubles(&[1.0]), doubles(&[3.0])];
    let mut trainer = ForestTrainer::new(rows.clone(), 1);
    let mut asked = trainer.next_split();
    let mut splits = 0;
    while let Some((lo, hi)) = asked {
        assert_eq!((lo, hi), (double(1.0), double(3.0)));
        splits += 1;
        asked = trainer.give_split(double(2.5));
    }
    assert_eq!(splits, 100);
    for t in &trainer.finish().trees {
        assert_eq!(t.nodes.len(), 3);
        assert_eq!(t.nodes[0].split, double(2.5));
        assert_eq!(tree_path_length(t, &rows[0]), (1, 1));
        assert_eq!(t.nodes[t.nodes[0].left].size, 1);
    }
}

#[test]
fn a_missed_split_is_tried_ten_times() {
    let rows = vec![doubles(&[1.0]), doubles(&[3.0])];
    let mut trainer = ForestTrainer::new(rows.clone(), 1);
    let mut asked = trainer.next_split();
    let mut splits = 0;
    while asked.is_some() {
        splits += 1;
        asked = trainer.give_split(double(1.0));
    }
    assert_eq!(splits, 1000);
    for t in &trainer.finish().trees {
        assert_eq!(tree_path_length(t, &rows[0]), (0, 2));
    }
}

#[test]
fn misses_are_counted_for_each_node() {
    let rows = vec![doubles(&[1.0]), doubles(&[2.0]), doubles(&[3.0])];
    let mut trainer = ForestTrainer::new(rows.clone(), 4);
    let mut asked = trainer.next_split();
    let (mut splits, mut misses) = (0, 0);
    while let Some((lo, hi)) = asked {
        splits += 1;
        assert_eq!(hi, double(3.0));
        asked = if lo == double(1.0) && misses == 9 {
            misses = 0;
            trainer.give_split(double(1.5))
        } else {
            misses = if lo == double(1.0) { misses + 1 } else { 0 };
            trainer.give_split(double(7.0))
        };
    }
    assert_eq!(splits, 100 * (10 + 10));
    for t in &trainer.finish().trees {
        assert_eq!(t.nodes.len(), 3);
        assert_eq!(tree_path_length(t, &rows[0]), (1, 1));
        assert_eq!(tree_path_length(t, &rows[2]), (1, 2));
    }
}

#[test]
fn the_standard_configuration() {
    let cfg = GenConfig::default_();
    assert_eq!((cfg.seed, cfg.users, cfg.normal_per_user), (42, 5, 95));
    assert_eq!((cfg.a, cfg.b, cfg.c, cfg.d), (4, 12, 5, 4));
    assert_eq!(cfg.c_size_lo, double(280.0));
    assert!(!cfg.unknown);
    assert_eq!(cfg.injected(), 25);
    assert_eq!(GenConfig { unknown: true, users: 3, ..cfg }.injected(), 89);
    assert!(cfg.is_valid());
    assert!(!GenConfig { users: 0, ..cfg }.is_valid());
    assert!(!GenConfig { c_size_lo: double(450.0), ..cfg }.is_valid());
    assert!(GenConfig { c: 0, c_size_lo: double(450.0), ..cfg }.is_valid());
    assert!(GenConfig { b: u32::MAX / 18 + 1, ..cfg }.is_valid());
    assert!(!GenConfig { b: u32::MAX / 18 + 2, ..cfg }.is_valid());
    assert!(!GenConfig { normal_per_user: usize::MAX, ..cfg }.is_valid());
}

#[test]
fn a_log_may_be_made_on_the_last_day() {
    let cfg = GenConfig {
        users: 1,
        normal_per_user: 1,
        a: 0,
        b: 1967,
        c: 0,
        d: 0,
        ..GenConfig::default_()
    };
    assert!(cfg.is_startable(LAST_DAY));
    assert!(!GenConfig { b: 1968, ..cfg }.is_startable(LAST_DAY));
    assert!(GenConfig { b: 1968, ..cfg }.is_startable(LAST_DAY - 1));
    assert!(GenConfig { b: 0, ..cfg }.is_startable(LAST_DAY));
    assert!(!GenConfig { users: 0, ..cfg }.is_startable(LAST_DAY));
    assert!(!cfg.is_startable(LAST_DAY + 1));
    assert!(!cfg.is_startable(FIRST_DAY - 1));
    for seed in 0..10 {
        let mut generator = Generator::new(&GenConfig { seed, ..cfg }, LAST_DAY);
        let mut made = 0;
        while let Some(draft) = generator.next_draft().unwrap() {
            assert!(draft.moment.day <= LAST_DAY);
            made += 1;
            generator.accept(made, double(1.0));
        }
        assert_eq!(made, 1968);
    }
}

#[test]
fn a_log_may_start_too_early() {
    let cfg = GenConfig {
        unknown: true,
        users: 1,
        normal_per_user: 0,
        a: 0,
        b: 0,
        c: 0,
        d: 0,
        ..GenConfig::default_()
    };
    let mut generator = Generator::new(&cfg, FIRST_DAY + 80);
    let mut made = 0;
    let failure = loop {
        match generator.next_draft() {
            Ok(Some(draft)) => {
                if made >= 21 {
                    assert_eq!(draft.size, SizeDraw::Ramp { step: made - 21 });
                }
                made += 1;
                generator.accept(0, double(1.0));
            }
            Ok(None) => break None,
            Err(e) => break Some(e),
        }
    };
    assert_eq!(failure, Some(TimeError::DayUnderflow));
    assert_eq!(made, 21);
}

#[test]
fn a_log_fails_only_for_want_of_days() {
    let cfg = GenConfig { unknown: true, ..GenConfig::default_() };
    for (gap, expected) in [(0, 515), (2, 515), (3, 521), (86, 521), (87, 566)] {
        let mut generator = Generator::new(&cfg, FIRST_DAY + gap);
        let mut made = 0;
        while let Ok(Some(_)) = generator.next_draft() {
            made += 1;
            generator.accept(0, double(1.0));
        }
        assert_eq!(made, expected);
    }
}

#[test]
fn drafts_ask_for_their_sizes() {
    let cfg = GenConfig {
        users: 1,
        normal_per_user: 1,
        a: 1,
        b: 1,
        c: 1,
        d: 1,
        unknown: true,
        ..GenConfig::default_()
    };
    let mut generator = Generator::new(&cfg, day(2024, 3, 4));
    let mut plans = Vec::new();
    while let Some(draft) = generator.next_draft().unwrap() {
        plans.push(draft.size);
        generator.accept(plans.len() as i64, double(7.0));
    }
    let between = |lo: f64, hi: f64| SizeDraw::Between { lo: double(lo), hi: double(hi) };
    assert_eq!(plans.len(), 5 + 15 + 6 + 40 + 1);
    assert_eq!(plans[0], SizeDraw::Usual);
    assert_eq!(plans[1], between(600.0, 1600.0));
    assert_eq!(plans[2], between(350.0, 700.0));
    assert_eq!(plans[3], between(280.0, 450.0));
    assert_eq!(plans[4], between(1200.0, 2500.0));
    assert_eq!(plans[5], between(50.0, 120.0));
    assert_eq!(plans[20], between(60.0, 200.0));
    assert_eq!(plans[26], SizeDraw::Ramp { step: 0 });
    assert_eq!(plans[66], between(180.0, 250.0));
    let logs = generator.finish();
    assert!(logs.iter().all(|l| l.user_id == 1 && l.file_size_kb == double(7.0)));
    let epochs: Vec<i64> = logs.iter().map(|l| l.timestamp.epoch).collect();
    assert_eq!(epochs, (1..=67).collect::<Vec<i64>>());
}
