use segmented_sieve::aggregate::aggregate;
use segmented_sieve::base::sieve;
use segmented_sieve::partition::make_segments;
use segmented_sieve::pipeline::isqrt;
use segmented_sieve::pipeline::run;
use segmented_sieve::pipeline::ConfigError;
use segmented_sieve::segment::calculate_segment;

#[test]
fn base_sieve_thirty() {
    assert_eq!(
        sieve(30),
        vec![2, 3, 5, 7, 11, 13, 17, 19, 23, 29]
    );
}

#[test]
fn base_sieve_tiny_limits() {
    assert_eq!(sieve(0), Vec::<usize>::new());
    assert_eq!(sieve(1), Vec::<usize>::new());
    assert_eq!(sieve(2), Vec::<usize>::new());
    assert_eq!(sieve(3), vec![2]);
    assert_eq!(sieve(4), vec![2, 3]);
    assert_eq!(sieve(5), vec![2, 3]);
    assert_eq!(sieve(6), vec![2, 3, 5]);
}

#[test]
fn isqrt_values() {
    assert_eq!(isqrt(0), 0);
    assert_eq!(isqrt(1), 1);
    assert_eq!(isqrt(3), 1);
    assert_eq!(isqrt(4), 2);
    assert_eq!(isqrt(99), 9);
    assert_eq!(isqrt(100), 10);
    assert_eq!(isqrt(1_000_000), 1000);
}

#[test]
fn segment_union_reproduces_full_sieve() {
    for low in [15usize, 20, 50, 199] {
        let base = sieve(low);
        let seg = calculate_segment(low, 200, &base);
        let mut combined = base.clone();
        combined.extend(seg.iter().copied());
        assert_eq!(combined, sieve(200));
    }
}

#[test]
fn segment_of_empty_range_is_empty() {
    let base = sieve(10);
    assert_eq!(calculate_segment(10, 10, &base), Vec::<usize>::new());
    assert_eq!(calculate_segment(4, 5, &sieve(4)), Vec::<usize>::new());
}

#[test]
fn partition_is_contiguous_cover() {
    let segs = make_segments(100, 11, 8);
    assert_eq!(segs.len(), 8);
    assert_eq!(segs[0].0, 11);
    assert_eq!(segs[segs.len() - 1].1, 100);
    for k in 0..segs.len() {
        assert!(segs[k].0 <= segs[k].1);
        if k + 1 < segs.len() {
            assert_eq!(segs[k].1, segs[k + 1].0);
        }
    }
}

#[test]
fn partition_with_more_workers_than_range() {
    let segs = make_segments(10, 4, 50);
    assert_eq!(segs.len(), 50);
    assert_eq!(segs[0].0, 4);
    assert_eq!(segs[segs.len() - 1].1, 10);
    for k in 0..segs.len() {
        assert!(segs[k].0 <= segs[k].1);
        if k + 1 < segs.len() {
            assert_eq!(segs[k].1, segs[k + 1].0);
        }
    }
    let summary = run(10, 50).unwrap();
    assert_eq!(summary.count, 4);
    assert_eq!(summary.sum, 2 + 3 + 5 + 7);
}

#[test]
fn aggregate_small_collection() {
    let summary = aggregate(&vec![2, 3, 5, 7]);
    assert_eq!(summary.count, 4);
    assert_eq!(summary.sum, 17);
    assert_eq!(summary.top, vec![7, 5, 3, 2]);
}

#[test]
fn aggregate_keeps_ten_largest() {
    let primes: Vec<usize> = vec![2, 3, 5, 7, 11, 13, 17, 19, 23, 29, 31, 37];
    let summary = aggregate(&primes);
    assert_eq!(summary.count, 12);
    assert_eq!(summary.sum, 197);
    assert_eq!(summary.top, vec![37, 31, 29, 23, 19, 17, 13, 11, 7, 5]);
}

#[test]
fn run_boundary_limits() {
    let s2 = run(2, 4).unwrap();
    assert_eq!(s2.count, 0);
    assert_eq!(s2.sum, 0);
    assert_eq!(s2.top, Vec::<usize>::new());

    let s3 = run(3, 4).unwrap();
    assert_eq!(s3.count, 1);
    assert_eq!(s3.sum, 2);
    assert_eq!(s3.top, vec![2]);
}

#[test]
fn run_hundred() {
    let summary = run(100, 8).unwrap();
    assert_eq!(summary.count, 25);
    assert_eq!(summary.sum, 1060);
    assert_eq!(
        summary.top,
        vec![97, 89, 83, 79, 73, 71, 67, 61, 59, 53]
    );
}

#[test]
fn run_million_against_single_threaded_sieve() {
    let summary = run(1_000_000, 8).unwrap();
    assert_eq!(summary.count, 78498);

    let reference = sieve(1_000_000);
    assert_eq!(summary.count, reference.len());
    let ref_sum: u64 = reference.iter().map(|&p| p as u64).sum();
    assert_eq!(summary.sum, ref_sum);
    let ref_top: Vec<usize> = reference.iter().rev().take(10).copied().collect();
    assert_eq!(summary.top, ref_top);
}

#[test]
fn run_is_deterministic_across_worker_counts() {
    let a = run(10_000, 8).unwrap();
    let b = run(10_000, 8).unwrap();
    assert_eq!(a, b);
    let c = run(10_000, 1).unwrap();
    let d = run(10_000, 7).unwrap();
    assert_eq!(a, c);
    assert_eq!(a, d);
}

#[test]
fn run_rejects_bad_configurations() {
    assert_eq!(run(100, 0), Err(ConfigError::NoWorkers));
    assert_eq!(run(0, 0), Err(ConfigError::NoWorkers));
    assert_eq!(run(0, 1), Err(ConfigError::LimitOutOfRange));
    assert_eq!(run(1, 3), Err(ConfigError::LimitOutOfRange));
    assert_eq!(run(4_294_967_296, 1), Err(ConfigError::LimitOutOfRange));
}
