use cdm_oprf::cut_and_choose::{
    bucket_members, bucket_pattern, bucket_positions, opened_triples_hold, opening_flags, shares_cancel,
    shuffled_bucket_assignment, shuffled_opening_flags, split_opened,
};
use cdm_oprf::f3::F3;
use rand::rngs::StdRng;
use rand::SeedableRng;

fn seeded_rng(seed: [u8; 32]) -> StdRng {
    StdRng::from_seed(seed)
}

fn f3(x: u8) -> F3 {
    F3::try_from(x).unwrap()
}

#[test]
fn opening_flags_patterns() {
    assert_eq!(opening_flags(5, 2, false), vec![0, 0, 0, 1, 1]);
    assert_eq!(opening_flags(5, 2, true), vec![1, 1, 0, 0, 0]);
    assert_eq!(opening_flags(3, 0, true), vec![0, 0, 0]);
    assert_eq!(opening_flags(3, 3, false), vec![1, 1, 1]);
}

#[test]
fn bucket_pattern_rounds() {
    assert_eq!(bucket_pattern(3, 2), vec![0, 1, 2, 0, 1, 2]);
    assert_eq!(bucket_pattern(2, 0), Vec::<usize>::new());
}

#[test]
fn split_opened_keeps_order() {
    let (opened, kept) = split_opened(&vec![10u32, 11, 12, 13, 14], &vec![0, 1, 0, 1, 0]);
    assert_eq!(opened, vec![11, 13]);
    assert_eq!(kept, vec![10, 12, 14]);
}

#[test]
fn bucket_positions_by_assignment() {
    // bucket 0 gets positions 1 and 3, bucket 1 positions 0 and 2
    assert_eq!(bucket_positions(&vec![1, 0, 1, 0], 2, 2), vec![1, 3, 0, 2]);
    assert_eq!(bucket_positions(&vec![2, 2, 0, 1, 0, 1], 3, 2), vec![2, 4, 3, 5, 0, 1]);
}

#[test]
fn shuffled_flags_open_exactly_the_requested_number() {
    let mut rng = seeded_rng([7u8; 32]);
    for opened_first in [false, true] {
        let flags = shuffled_opening_flags(100, 40, opened_first, &mut rng);
        assert_eq!(flags.len(), 100);
        assert_eq!(flags.iter().filter(|&&f| f == 1).count(), 40);
        assert_eq!(flags.iter().filter(|&&f| f == 0).count(), 60);
        let items: Vec<usize> = (0..100).collect();
        let (opened, kept) = split_opened(&items, &flags);
        assert_eq!(opened.len(), 40);
        assert_eq!(kept.len(), 60);
        assert!(opened.iter().all(|&i| flags[i] == 1));
        assert!(kept.iter().all(|&i| flags[i] == 0));
    }
}

#[test]
fn same_seed_same_flags() {
    let a = shuffled_opening_flags(64, 16, false, &mut seeded_rng([3u8; 32]));
    let b = shuffled_opening_flags(64, 16, false, &mut seeded_rng([3u8; 32]));
    assert_eq!(a, b);
}

#[test]
fn shuffled_buckets_deal_every_candidate_once() {
    let mut rng = seeded_rng([9u8; 32]);
    let (buckets, per_bucket) = (12, 5);
    let assignment = shuffled_bucket_assignment(buckets, per_bucket, &mut rng);
    assert_eq!(assignment.len(), buckets * per_bucket);
    for j in 0..buckets {
        assert_eq!(assignment.iter().filter(|&&x| x == j).count(), per_bucket);
    }
    let slots = bucket_positions(&assignment, buckets, per_bucket);
    let mut seen = vec![false; slots.len()];
    for (t, &p) in slots.iter().enumerate() {
        assert!(!seen[p]);
        seen[p] = true;
        assert_eq!(assignment[p], t / per_bucket);
    }
    assert!(seen.iter().all(|&s| s));
}

#[test]
fn triple_check_accepts_and_rejects() {
    // 2 * 2 = 4 = 1 mod 3, shared as 0 + 1
    assert!(opened_triples_hold(&vec![f3(2)], &vec![f3(2)], &vec![f3(0)], &vec![f3(1)]));
    assert!(!opened_triples_hold(&vec![f3(2)], &vec![f3(2)], &vec![f3(1)], &vec![f3(1)]));
    assert!(opened_triples_hold(
        &vec![f3(1), f3(0)],
        &vec![f3(2), f3(2)],
        &vec![f3(1), f3(2)],
        &vec![f3(1), f3(1)]
    ));
    assert!(opened_triples_hold(&vec![], &vec![], &vec![], &vec![]));
}

#[test]
fn shares_cancel_check() {
    assert!(shares_cancel(&vec![f3(1), f3(0)], &vec![f3(2), f3(0)]));
    assert!(!shares_cancel(&vec![f3(1), f3(1)], &vec![f3(2), f3(1)]));
}

#[test]
fn bucket_members_follow_the_slots() {
    let v = vec![10u32, 11, 12, 13, 14, 15];
    let slots = vec![5, 3, 1, 0, 2, 4];
    assert_eq!(bucket_members(&v, &slots, 0, 3), vec![15, 13, 11]);
    assert_eq!(bucket_members(&v, &slots, 1, 3), vec![10, 12, 14]);
}
