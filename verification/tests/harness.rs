use parole::entropy::{rank, ONE_BIT};
use parole::sim::{
    parse_args, simulate_game, u64_to_string, Args, ArgsError, SimulationResult,
};
use parole::words::WordPool;

fn pool_of(words: &[&str]) -> WordPool {
    let ws: Vec<String> = words.iter().map(|w| w.to_string()).collect();
    WordPool::new(ws, vec![('e', 120000)])
}

fn total(h: &SimulationResult) -> u64 {
    h.counts.iter().sum()
}

#[test]
fn rank_is_deterministic() {
    let cands: Vec<String> = vec!["tares".into(), "crane".into(), "slate".into()];
    let a = rank(&cands);
    let b = rank(&cands);
    assert_eq!(a, b);
}

#[test]
fn empty_candidates_rank_to_nothing() {
    let cands: Vec<String> = Vec::new();
    assert!(rank(&cands).is_empty());
}

#[test]
fn singleton_ranks_itself_with_zero_entropy() {
    let cands: Vec<String> = vec!["crane".into()];
    let r = rank(&cands);
    assert_eq!(r.len(), 1);
    assert_eq!(r[0].0, "crane");
    assert_eq!(r[0].1, 0);
}

#[test]
fn two_distinguishable_candidates_score_one_bit() {
    let cands: Vec<String> = vec!["aaaaa".into(), "bbbbb".into()];
    let r = rank(&cands);
    // Each guess splits the two candidates into two buckets of one:
    // exactly one bit of information.
    assert_eq!(r[0].1, ONE_BIT);
    assert_eq!(r[1].1, ONE_BIT);
}

#[test]
fn rank_orders_by_score_descending() {
    let cands: Vec<String> =
        vec!["tares".into(), "crane".into(), "slate".into(), "crate".into(), "aaaaa".into()];
    let r = rank(&cands);
    assert_eq!(r.len(), 5);
    for i in 1..r.len() {
        assert!(r[i - 1].1 >= r[i].1);
    }
}

#[test]
fn simulation_histogram_sums_to_budget() {
    let p = pool_of(&["tares", "crane", "slate", "crate", "brine"]);
    let h = simulate_game(&p, 50, 42);
    assert_eq!(h.counts.len(), 7);
    assert_eq!(total(&h), 50);
    let row = h.to_csv_row(50);
    assert_eq!(row.len(), 8);
    assert_eq!(row[0], "50");
    let counted: u64 = row[1..].iter().map(|f| f.parse::<u64>().unwrap()).sum();
    assert_eq!(counted, 50);
}

#[test]
fn simulation_with_fixed_seed_repeats() {
    let p = pool_of(&["tares", "crane", "slate"]);
    let a = simulate_game(&p, 20, 7);
    let b = simulate_game(&p, 20, 7);
    assert_eq!(a.counts, b.counts);
}

#[test]
fn zero_budget_leaves_empty_histogram() {
    let p = pool_of(&["tares"]);
    let h = simulate_game(&p, 0, 1);
    assert_eq!(total(&h), 0);
}

#[test]
fn decimal_writing() {
    assert_eq!(u64_to_string(0), "0");
    assert_eq!(u64_to_string(7), "7");
    assert_eq!(u64_to_string(12345), "12345");
    assert_eq!(u64_to_string(1000), "1000");
}

fn argv(parts: &[&str]) -> Vec<String> {
    parts.iter().map(|p| p.to_string()).collect()
}

#[test]
fn args_defaults() {
    let a = parse_args(argv(&["prog"])).unwrap();
    assert_eq!(a.file_path, "results.csv");
    assert_eq!(a.iterations, vec![50, 100, 200]);
    let d = Args::default();
    assert_eq!(d.file_path, "results.csv");
    assert_eq!(d.iterations, vec![50, 100, 200]);
}

#[test]
fn args_file_and_iterations() {
    let a = parse_args(argv(&["prog", "-f", "out.csv", "-i", "10", "20"])).unwrap();
    assert_eq!(a.file_path, "out.csv");
    assert_eq!(a.iterations, vec![10, 20]);
    let b = parse_args(argv(&["prog", "--iterations", "5", "--file", "x.csv"])).unwrap();
    assert_eq!(b.file_path, "x.csv");
    assert_eq!(b.iterations, vec![5]);
}

#[test]
fn args_iterations_cap_at_three() {
    // A fourth number is no longer collected and reads as an unknown word.
    let r = parse_args(argv(&["prog", "-i", "1", "2", "3", "4"]));
    assert_eq!(r.err(), Some(ArgsError::UnknownArgument));
}

#[test]
fn args_errors() {
    assert_eq!(
        parse_args(argv(&["prog", "-f"])).err(),
        Some(ArgsError::MissingFilePath)
    );
    assert_eq!(
        parse_args(argv(&["prog", "-i"])).err(),
        Some(ArgsError::NoIterationCounts)
    );
    assert_eq!(
        parse_args(argv(&["prog", "-i", "-f", "x.csv"])).err(),
        Some(ArgsError::NoIterationCounts)
    );
    assert_eq!(
        parse_args(argv(&["prog", "-i", "many"])).err(),
        Some(ArgsError::InvalidIterationCount)
    );
    assert_eq!(
        parse_args(argv(&["prog", "-i", "99999"])).err(),
        Some(ArgsError::InvalidIterationCount)
    );
    assert_eq!(
        parse_args(argv(&["prog", "--verbose"])).err(),
        Some(ArgsError::UnknownArgument)
    );
}
