use cutlist::solver::{find_solution, initial_num_pieces};

#[test]
fn test_soln_1() {
    // lengths in hundredths: 0.2, 0.3, 0.45, 0.45, 0.45, 0.7, 0.85, 1.1, 1.5
    // against a plank of 2.0
    let pieces = vec![20u64, 30, 45, 45, 45, 70, 85, 110, 150];
    let max_len = 200u64;
    let soln = find_solution(max_len, &pieces);
    for a in soln {
        let b = vec![
            vec![20u64, 30, 150],
            vec![45u64, 45, 110],
            vec![45u64, 70, 85],
        ];
        assert!(b
            .iter()
            .map(|c| c.iter().zip(a.iter()).fold(true, |x, (y, z)| x && (y == z)))
            .fold(false, |x, y| x || y));
    }
}

fn check_round_trip_and_capacity(max_len: u64, pieces: &Vec<u64>) -> usize {
    let soln = find_solution(max_len, pieces);
    let mut all: Vec<u64> = Vec::new();
    for b in &soln {
        assert!(!b.is_empty());
        let mut total: u64 = 0;
        let mut prev: u64 = 0;
        for &x in b {
            assert!(prev <= x);
            prev = x;
            total += x;
        }
        assert!(total <= max_len);
        all.extend_from_slice(b);
    }
    all.sort();
    assert_eq!(&all, pieces);
    soln.len()
}

#[test]
fn round_trip_and_capacity_on_examples() {
    check_round_trip_and_capacity(100, &vec![10, 20, 30, 40, 50, 60]);
    check_round_trip_and_capacity(7, &vec![7]);
    check_round_trip_and_capacity(4, &vec![2, 2, 2, 2, 2]);
    check_round_trip_and_capacity(10, &vec![1, 1, 1, 9, 9, 10]);
    check_round_trip_and_capacity(1000, &vec![1, 2, 3]);
}

/// The fewest bins any assignment can use, by exhaustive search.
fn brute_force_min_bins(max_len: u64, pieces: &[u64]) -> usize {
    fn go(pieces: &[u64], idx: usize, bins: &mut Vec<u64>, max_len: u64, best: &mut usize) {
        if bins.len() >= *best {
            return;
        }
        if idx == pieces.len() {
            *best = bins.len();
            return;
        }
        let p = pieces[idx];
        for i in 0..bins.len() {
            if bins[i] + p <= max_len {
                bins[i] += p;
                go(pieces, idx + 1, bins, max_len, best);
                bins[i] -= p;
            }
        }
        bins.push(p);
        go(pieces, idx + 1, bins, max_len, best);
        bins.pop();
    }
    let mut best = pieces.len();
    let mut bins: Vec<u64> = Vec::new();
    go(pieces, 0, &mut bins, max_len, &mut best);
    best
}

#[test]
fn no_smaller_arrangement_on_small_inputs() {
    let cases: Vec<(u64, Vec<u64>)> = vec![
        (200, vec![20, 30, 45, 45, 45, 70, 85, 110, 150]),
        (7, vec![7]),
        (4, vec![2, 2, 2, 2, 2]),
        (10, vec![5, 5, 5, 5]),
        (1000, vec![1, 2, 3]),
        (100, vec![10, 20, 30, 40, 50, 60]),
    ];
    for (max_len, pieces) in cases {
        let got = check_round_trip_and_capacity(max_len, &pieces);
        let best = brute_force_min_bins(max_len, &pieces);
        assert_eq!(got, best, "pieces {:?}", pieces);
    }
}

#[test]
fn round_trip_and_capacity_on_random_inputs() {
    // a simple linear-congruential stream keeps the cases reproducible
    let mut state: u64 = 0x2545_f491_4f6c_dd1d;
    for case in 0..12 {
        let n = 3 + (case % 6) as usize;
        let max_len: u64 = 50;
        let mut pieces: Vec<u64> = Vec::new();
        for _ in 0..n {
            state = state.wrapping_mul(6364136223846793005).wrapping_add(1442695040888963407);
            pieces.push(1 + (state >> 33) % max_len);
        }
        pieces.sort();
        check_round_trip_and_capacity(max_len, &pieces);
    }
}

#[test]
fn longest_prefix_that_fits() {
    let pieces = vec![1u64, 2, 3, 4, 5];
    assert_eq!(initial_num_pieces(6, &pieces), 3);
    assert_eq!(initial_num_pieces(5, &pieces), 2);
    assert_eq!(initial_num_pieces(0, &pieces), 0);
    assert_eq!(initial_num_pieces(15, &pieces), 5);
}
