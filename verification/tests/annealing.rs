use procon31_comp::algorithms::annealing::Annealer;
use rand::rngs::StdRng;
use rand::SeedableRng;

#[test]
fn starts_from_the_first_plans() {
    let a = Annealer::new(vec![3, 1, 4], -7);
    assert_eq!(a.selection(), &vec![0, 0, 0]);
    let (best, score) = a.best();
    assert_eq!(best, &vec![0, 0, 0]);
    assert_eq!(score, -7);
}

#[test]
fn a_proposal_changes_one_or_two_agents_and_stays_in_range() {
    let mut rng = StdRng::seed_from_u64(9);
    let sizes = vec![3, 1, 4, 2];
    let mut singles = 0;
    let mut doubles = 0;
    for _ in 0..300 {
        let mut a = Annealer::new(sizes.clone(), 0);
        a.propose(&mut rng);
        let sel = a.selection().clone();
        let changed = sel.iter().filter(|v| **v != 0).count();
        assert!(changed <= 2);
        for (i, v) in sel.iter().enumerate() {
            assert!(*v < sizes[i]);
        }
        assert_eq!(sel[1], 0);
        match a.stack.len() {
            1 => singles += 1,
            2 => {
                doubles += 1;
                assert_ne!(a.stack[0].0, a.stack[1].0);
            }
            _ => panic!("a proposal keeps one or two entries"),
        }
    }
    assert!(singles > doubles && doubles > 0);
}

#[test]
fn a_single_agent_always_gets_another_plan() {
    let mut rng = StdRng::seed_from_u64(4);
    for _ in 0..50 {
        let mut a = Annealer::new(vec![5], 0);
        a.propose(&mut rng);
        assert_ne!(a.selection()[0], 0);
        assert_eq!(a.stack, vec![(0, 0)]);
    }
}

#[test]
fn a_worse_proposal_is_put_back_unless_lucky() {
    let mut rng = StdRng::seed_from_u64(21);
    let mut a = Annealer::new(vec![3, 3, 3], 10);
    a.propose(&mut rng);
    let tried = a.selection().clone();
    assert!(!a.settle(4, false));
    assert_eq!(a.selection(), &vec![0, 0, 0]);
    assert_eq!(a.now_score, 10);
    assert_eq!(a.best().1, 10);
    assert_ne!(tried, vec![0, 0, 0]);
    a.propose(&mut rng);
    let tried = a.selection().clone();
    assert!(a.settle(4, true));
    assert_eq!(a.selection(), &tried);
    assert_eq!(a.now_score, 4);
    assert_eq!(a.best(), (&vec![0, 0, 0], 10));
    assert!(a.stack.is_empty());
}

#[test]
fn the_best_selection_is_kept_apart() {
    let mut rng = StdRng::seed_from_u64(2);
    let mut a = Annealer::new(vec![4, 4], 0);
    a.propose(&mut rng);
    let first = a.selection().clone();
    assert!(a.settle(5, false));
    assert_eq!(a.best(), (&first, 5));
    a.propose(&mut rng);
    assert!(a.settle(5, false));
    assert_eq!(a.best(), (&first, 5));
    a.propose(&mut rng);
    assert!(a.settle(-3, true));
    assert_eq!(a.best(), (&first, 5));
    assert_eq!(a.now_score, -3);
}

#[test]
fn the_best_is_never_worse_than_the_start() {
    let mut rng = StdRng::seed_from_u64(77);
    let score = |sel: &Vec<usize>| -> i64 { sel.iter().map(|v| (*v as i64 - 2) * 3).sum() };
    let sizes = vec![5, 5, 5, 5];
    let start = score(&vec![0, 0, 0, 0]);
    let mut a = Annealer::new(sizes, start);
    for round in 0..500 {
        a.propose(&mut rng);
        let s = score(a.selection());
        a.settle(s, round % 3 == 0);
        let (best, best_score) = a.best();
        assert_eq!(score(best), best_score);
        assert!(best_score >= start);
        assert!(best_score >= a.now_score);
    }
    assert!(a.best().1 > start);
}
