use picker::{sample, DrawSource, FixedSource, Picker, RandomSource};
use rand::rngs::StdRng;
use rand::SeedableRng;

fn zeros() -> FixedSource<0> {
    FixedSource::<0>::new()
}

fn labels(n: usize) -> Vec<String> {
    (0..n).map(|i| format!("line {}", i)).collect()
}

fn seeded(seed: u64) -> RandomSource {
    RandomSource::new(StdRng::seed_from_u64(seed))
}

fn run(capacity: usize, lines: &[String], source: &mut impl DrawSource) -> Vec<String> {
    let mut picker = Picker::new(capacity);
    for line in lines {
        picker.observe(line.clone(), source);
    }
    picker.finalize().clone()
}

#[test]
fn new_picker_is_empty() {
    let picker = Picker::new(3);
    assert_eq!(picker.capacity(), 3);
    assert_eq!(picker.seen_count(), 0);
    assert!(picker.finalize().is_empty());
}

#[test]
fn zero_draws_trace() {
    let mut picker = Picker::new(2);
    let mut zeros = zeros();
    let expected: [&[&str]; 5] = [
        &["a"],
        &["a", "b"],
        &["c", "b"],
        &["d", "b"],
        &["e", "b"],
    ];
    for (i, line) in ["a", "b", "c", "d", "e"].iter().enumerate() {
        picker.observe(line.to_string(), &mut zeros);
        assert_eq!(picker.seen_count(), i + 1);
        assert_eq!(picker.finalize(), &expected[i].iter().map(|s| s.to_string()).collect::<Vec<_>>());
    }
    assert_eq!(picker.finalize(), &vec!["e".to_string(), "b".to_string()]);
}

#[test]
fn draw_bound_counts_the_current_line() {
    let mut picker = Picker::new(2);
    let mut recorder = zeros();
    for line in labels(5) {
        picker.observe(line, &mut recorder);
        if picker.seen_count() == 2 {
            assert!(recorder.bounds.is_empty());
        }
    }
    assert_eq!(recorder.bounds, vec![3, 4, 5]);
    assert_eq!(picker.finalize(), &vec!["line 4".to_string(), "line 1".to_string()]);
}

#[test]
fn draw_at_or_above_capacity_discards_line() {
    let mut picker = Picker::new(2);
    picker.observe_drawn("a".to_string(), 7);
    picker.observe_drawn("b".to_string(), 7);
    picker.observe_drawn("c".to_string(), 2);
    assert_eq!(picker.finalize(), &vec!["a".to_string(), "b".to_string()]);
    picker.observe_drawn("d".to_string(), 1);
    assert_eq!(picker.finalize(), &vec!["a".to_string(), "d".to_string()]);
    assert_eq!(picker.seen_count(), 4);
}

#[test]
fn bounded_memory() {
    let mut source = seeded(7);
    for k in 0..6 {
        for n in 0..15 {
            let out = run(k, &labels(n), &mut source);
            assert_eq!(out.len(), n.min(k));
        }
    }
}

#[test]
fn zero_capacity_is_always_empty() {
    let mut source = seeded(1);
    for n in [0, 1, 5, 100] {
        let mut picker = Picker::new(0);
        for line in labels(n) {
            picker.observe(line, &mut source);
        }
        assert!(picker.finalize().is_empty());
        assert_eq!(picker.seen_count(), n);
    }
}

#[test]
fn fill_phase_keeps_every_line() {
    let mut source = seeded(3);
    for n in 0..=8 {
        let lines = labels(n);
        assert_eq!(run(8, &lines, &mut source), lines);
    }
}

#[test]
fn inclusion_is_uniform() {
    let n = 1000;
    let k = 10;
    let trials = 2000;
    let mut counts = vec![0usize; n];
    let mut source = seeded(2024);
    for _ in 0..trials {
        let mut picker = Picker::new(k);
        for i in 0..n {
            picker.observe(i.to_string(), &mut source);
        }
        for chosen in picker.finalize() {
            counts[chosen.parse::<usize>().unwrap()] += 1;
        }
    }
    let expected = (trials * k) as f64 / n as f64;
    let chi_square: f64 = counts
        .iter()
        .map(|&c| {
            let d = c as f64 - expected;
            d * d / expected
        })
        .sum();
    // 999 degrees of freedom: mean 999, standard deviation about 45.
    assert!(chi_square < 1200.0, "chi-square {}", chi_square);
    assert!(chi_square > 800.0, "chi-square {}", chi_square);
    let first_half: usize = counts[..n / 2].iter().sum();
    let total: usize = counts.iter().sum();
    assert_eq!(total, trials * k);
    let share = first_half as f64 / total as f64;
    assert!((share - 0.5).abs() < 0.02, "share {}", share);
}

#[test]
fn same_seed_same_sample() {
    let lines = labels(500);
    let a = run(7, &lines, &mut seeded(99));
    let b = run(7, &lines, &mut seeded(99));
    assert_eq!(a, b);
    assert_eq!(a.len(), 7);
}

#[test]
fn random_source_draws_below_bound() {
    let mut source = seeded(5);
    let mut seen_nonzero = false;
    for bound in 1..200usize {
        let r = source.draw_below(bound);
        assert!(r < bound);
        if r != 0 {
            seen_nonzero = true;
        }
    }
    assert!(seen_nonzero);
    assert_eq!(source.draw_below(1), 0);
}

#[test]
fn read_error_yields_no_sample() {
    let reads: Vec<Result<String, String>> = (1..=10)
        .map(|i| if i == 5 { Err("bad line 5".to_string()) } else { Ok(format!("line {}", i)) })
        .collect();
    let result = sample(3, reads, &mut seeded(11));
    assert_eq!(result, Err("bad line 5".to_string()));
}

#[test]
fn first_read_error_wins() {
    let reads: Vec<Result<String, String>> = vec![
        Ok("a".to_string()),
        Err("first".to_string()),
        Ok("b".to_string()),
        Err("second".to_string()),
    ];
    assert_eq!(sample(2, reads, &mut zeros()), Err("first".to_string()));
}

#[test]
fn sample_without_errors() {
    let reads: Vec<Result<String, String>> =
        ["a", "b", "c", "d", "e"].iter().map(|s| Ok(s.to_string())).collect();
    assert_eq!(sample(2, reads, &mut zeros()), Ok(vec!["e".to_string(), "b".to_string()]));
    let empty: Vec<Result<String, String>> = Vec::new();
    assert_eq!(sample(4, empty, &mut zeros()), Ok(Vec::new()));
}

#[test]
fn pick_stops_at_read_error() {
    let mut picker = Picker::new(4);
    let reads: Vec<Result<String, String>> = vec![
        Ok("a".to_string()),
        Ok("b".to_string()),
        Err("broken".to_string()),
        Ok("c".to_string()),
    ];
    assert_eq!(picker.pick(reads, &mut zeros()), Err("broken".to_string()));
    assert_eq!(picker.seen_count(), 2);
    assert_eq!(picker.finalize(), &vec!["a".to_string(), "b".to_string()]);
}

#[test]
fn feed_error_leaves_picker_unchanged() {
    let mut picker = Picker::new(1);
    assert_eq!(picker.feed(Ok::<String, String>("a".to_string()), &mut zeros()), Ok(()));
    assert_eq!(picker.feed(Err::<String, String>("io".to_string()), &mut zeros()), Err("io".to_string()));
    assert_eq!(picker.seen_count(), 1);
    assert_eq!(picker.finalize(), &vec!["a".to_string()]);
    assert_eq!(picker.feed(Ok::<String, String>("b".to_string()), &mut zeros()), Ok(()));
    assert_eq!(picker.finalize(), &vec!["b".to_string()]);
}

#[test]
fn fixed_source_clamps_to_bound() {
    let mut source = FixedSource::<5>::new();
    assert_eq!(source.draw_below(10), 5);
    assert_eq!(source.draw_below(3), 2);
    assert_eq!(source.bounds, vec![10, 3]);
}

#[test]
fn pick_in_two_parts_matches_one_pass() {
    let lines = labels(9);
    let reads = |ls: &[String]| ls.iter().map(|l| Ok::<String, String>(l.clone())).collect::<Vec<_>>();
    let mut split = Picker::new(3);
    let mut source_a = FixedSource::<1>::new();
    assert_eq!(split.pick(reads(&lines[..4]), &mut source_a), Ok(()));
    assert_eq!(split.pick(reads(&lines[4..]), &mut source_a), Ok(()));
    let mut whole = Picker::new(3);
    let mut source_b = FixedSource::<1>::new();
    assert_eq!(whole.pick(reads(&lines), &mut source_b), Ok(()));
    assert_eq!(split.finalize(), whole.finalize());
    assert_eq!(split.seen_count(), 9);
    assert_eq!(source_a.bounds, source_b.bounds);
    assert_eq!(source_a.bounds, vec![4, 5, 6, 7, 8, 9]);
}
