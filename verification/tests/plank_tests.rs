use cutlist::plank::Plank;

fn run_through_arrangements(p: &mut Plank, expected_count: usize) {
    let mut old_len: u64 = 0;
    let mut curr_len = p.total_len;
    let mut counter: usize = 1;
    while p.has_next() {
        assert!(old_len <= curr_len);
        p.next();
        old_len = curr_len;
        curr_len = p.total_len;
        counter += 1;
    }
    assert_eq!(counter, expected_count);
}

#[test]
fn test_plank_initializer() {
    let pieces = vec![1u64, 2, 3, 4, 5];
    let mut p = Plank::new(2, &vec![false; 5], &pieces);
    assert_eq!(p.state_bv, vec![true, true, false, false, false]);
    assert_eq!(p.total_len, 3);

    p = Plank::new(3, &vec![false, true, false, true, false], &pieces);
    assert_eq!(p.state_bv, vec![true, true, true, true, true]);
    assert_eq!(p.total_len, 9);

    p.set_num_pieces(2);
    assert_eq!(p.state_bv, vec![true, true, true, true, false]);
    assert_eq!(p.total_len, 4);
}

#[test]
fn test_next_fn_all_unique() {
    let pieces = vec![1u64, 3, 6, 7, 8, 10, 15, 17, 20];
    let mask = vec![false, true, false, false, false, true, false, true, false];
    let mut p = Plank::new(3, &mask, &pieces);

    // 6 choose 3 = 20
    run_through_arrangements(&mut p, 20);
}

#[test]
fn test_next_some_repeats() {
    let pieces = vec![
        1u64, 1, 1, 1, 2, 2, 2, 2, 3, 3, 3, 3, 4, 4, 4, 4,
    ];
    let mask_a = vec![
        false, false, false, false, false, false, true, true, false, false, true, true, false,
        false, false, false,
    ];
    let mut p = Plank::new(4, &mask_a, &pieces);
    run_through_arrangements(&mut p, 27);
    let mask_b = vec![
        false, false, true, true, false, false, false, false, false, false, false, false, false,
        false, true, true,
    ];
    p = Plank::new(4, &mask_b, &pieces);
    run_through_arrangements(&mut p, 27);
}

#[test]
fn two_smallest_first_then_one_exchange() {
    let pieces = vec![1u64, 2, 3, 4, 5];
    let mut p = Plank::new(2, &vec![false; 5], &pieces);
    assert_eq!(p.state_bv, vec![true, true, false, false, false]);
    assert_eq!(p.total_len, 3);
    assert!(p.has_next());
    p.next();
    assert_eq!(p.state_bv, vec![true, false, true, false, false]);
    assert_eq!(p.total_len, 4);
}

#[test]
fn small_enough_is_exact() {
    let pieces = vec![2u64, 3, 5];
    let p = Plank::new(3, &vec![false; 3], &pieces);
    assert_eq!(p.total_len, 10);
    assert!(p.small_enough(10));
    assert!(!p.small_enough(9));
}

#[test]
fn repeats_never_produce_the_same_selection_twice() {
    let pieces = vec![1u64, 1, 2, 2, 3];
    let mut p = Plank::new(2, &vec![false; 5], &pieces);
    let mut seen: Vec<Vec<bool>> = vec![p.state_bv.clone()];
    while p.has_next() {
        p.next();
        assert!(!seen.contains(&p.state_bv));
        seen.push(p.state_bv.clone());
    }
}
