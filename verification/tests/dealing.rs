use countdown::Round;

fn count(numbers: &[u32], wanted: u32) -> usize {
    numbers.iter().filter(|x| **x == wanted).count()
}

#[test]
fn deal_with_first_places() {
    let round = Round::deal(2, &vec![0, 0, 0, 0, 0, 0], 500);
    assert_eq!(round.selection, vec![25, 50, 1, 1, 2, 2]);
    assert_eq!(round.target, 500);
}

#[test]
fn deal_with_last_places() {
    let round = Round::deal(4, &vec![3, 2, 1, 0, 19, 0], 101);
    assert_eq!(round.selection, vec![100, 75, 50, 25, 10, 1]);
    assert_eq!(round.target, 101);
}

#[test]
fn deal_without_larges() {
    let round = Round::deal(0, &vec![19, 18, 0, 0, 15, 3], 998);
    assert_eq!(round.selection, vec![10, 10, 1, 1, 9, 3]);
    assert_eq!(round.target, 998);
}

#[test]
fn deal_counts_places_in_what_is_left() {
    let round = Round::deal(3, &vec![1, 1, 1, 4, 4, 4], 250);
    assert_eq!(round.selection, vec![50, 75, 100, 3, 3, 4]);
}

#[test]
fn generated_rounds_draw_without_replacement() {
    for num_larges in 0..=4u32 {
        for _ in 0..200 {
            let round = Round::new(num_larges);
            assert_eq!(round.selection.len(), 6);
            let (larges, smalls) = round.selection.split_at(num_larges as usize);
            for large in larges {
                assert!([25, 50, 75, 100].contains(large));
                assert_eq!(count(larges, *large), 1);
            }
            for small in smalls {
                assert!((1..=10).contains(small));
                assert!(count(smalls, *small) <= 2);
            }
            assert!(round.target >= 101 && round.target <= 998);
            assert!(round.fits());
        }
    }
}

#[test]
fn generated_rounds_vary() {
    let first = Round::new(2);
    let mut other_selection = false;
    let mut other_target = false;
    let mut target_above_low = false;
    let mut not_first_places = false;
    for _ in 0..300 {
        let round = Round::new(2);
        other_selection |= round.selection != first.selection;
        other_target |= round.target != first.target;
        target_above_low |= round.target != 101;
        not_first_places |= round.selection != vec![25, 50, 1, 1, 2, 2];
    }
    assert!(other_selection);
    assert!(other_target);
    assert!(target_above_low);
    assert!(not_first_places);
}

#[test]
fn generated_round_can_be_solved() {
    let round = Round::new(1);
    let soln = round.solve();
    assert!(soln.solved || soln.method.is_empty());
    if soln.solved {
        assert!(!soln.method.is_empty());
        assert_eq!(soln.method.last().unwrap().output(), Ok(round.target));
    }
}
