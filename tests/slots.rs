use rand::rngs::SmallRng;
use rand::SeedableRng;
use slots::seed::seed_from_ticks;
use slots::{Play, Slots, SlotsError, SLOT_COUNT};

fn clock_ticks() -> u128 {
    std::time::SystemTime::now()
        .duration_since(std::time::UNIX_EPOCH)
        .map(|d| d.as_secs() as u128)
        .unwrap_or(0)
}

#[test]
fn test_rand() {
    let mut slots = Slots::new(SLOT_COUNT);
    slots.deal(clock_ticks());
    println!("{:?}", slots.get_nums());
    assert_eq!(slots.nums().len(), SLOT_COUNT);
    slots.evaluate_nums();
}

#[test]
fn test_these() {
    let mut slots = Slots::new(SLOT_COUNT);
    slots.deal_digits(vec![6, 3, 5, 4, 0, 8]);
    let score = slots.calc_score(slots.nums());
    println!("score={:?}", score);
}

#[test]
fn test_many() {
    for i in 0..50 {
        let mut slots = Slots::new(SLOT_COUNT);
        slots.deal(clock_ticks());
        let score = slots.calc_score(slots.nums());
        println!("{}/ {:?} >> score={:?}", i, slots.get_nums(), score);
    }
}

#[test]
fn same_input_same_score() {
    let slots = Slots::new(SLOT_COUNT);
    let nums = vec![2, 7, 7, 1, 3, 2];
    let first = slots.calc_score(&nums);
    let second = slots.calc_score(&nums);
    assert_eq!(first, second);
    assert_eq!(first, Ok(16));
}

#[test]
fn no_plays_score_zero() {
    let slots = Slots::new(SLOT_COUNT);
    let nums = vec![0, 2, 4, 6, 8, 9];
    assert!(slots.eval_matches(&nums).is_empty());
    assert!(slots.eval_sequences(&nums).is_empty());
    assert_eq!(slots.calc_score(&nums), Ok(0));
    assert_eq!(slots.calc_score(&nums).map(|s| s as f32), Ok(0.0));
}

#[test]
fn six_equal_digits() {
    let slots = Slots::new(SLOT_COUNT);
    let nums = vec![5, 5, 5, 5, 5, 5];
    let matches = slots.eval_matches(&nums);
    assert_eq!(matches, vec![Play::NumMatch(vec![5, 5, 5, 5, 5, 5])]);
    assert_eq!(matches[0].get_score(), 24);
    assert!(slots.eval_sequences(&nums).is_empty());
    assert_eq!(slots.calc_score(&nums), Ok(24));
}

#[test]
fn run_of_four() {
    let slots = Slots::new(SLOT_COUNT);
    let nums = vec![0, 3, 4, 5, 6, 8];
    let sequences = slots.eval_sequences(&nums);
    assert_eq!(sequences, vec![Play::NumSequence(vec![3, 4, 5, 6])]);
    assert_eq!(sequences[0].get_score(), 20);
    assert!(slots.eval_matches(&nums).is_empty());
    assert_eq!(slots.calc_score(&nums), Ok(20));
}

#[test]
fn shuffled_run_of_four() {
    let slots = Slots::new(SLOT_COUNT);
    let shuffled = vec![6, 3, 5, 4, 0, 8];
    let sorted = vec![0, 3, 4, 5, 6, 8];
    assert_eq!(slots.calc_score(&shuffled), Ok(20));
    assert_eq!(slots.calc_score(&shuffled), slots.calc_score(&sorted));
    assert_eq!(shuffled, vec![6, 3, 5, 4, 0, 8]);
}

#[test]
fn duplicate_ends_run() {
    let slots = Slots::new(SLOT_COUNT);
    let nums = vec![3, 3, 4, 5, 5, 6];
    assert_eq!(slots.eval_sequences(&nums), vec![Play::NumSequence(vec![3, 4, 5])]);
    assert_eq!(
        slots.eval_matches(&nums),
        vec![Play::NumMatch(vec![3, 3]), Play::NumMatch(vec![5, 5])]
    );
    assert_eq!(slots.calc_score(&nums), Ok(31));
}

#[test]
fn duplicate_after_short_start() {
    let slots = Slots::new(SLOT_COUNT);
    let nums = vec![1, 2, 2, 3, 4, 9];
    assert_eq!(slots.eval_sequences(&nums), vec![Play::NumSequence(vec![2, 3, 4])]);
    assert_eq!(slots.calc_score(&nums), Ok(23));
}

#[test]
fn two_runs() {
    let slots = Slots::new(SLOT_COUNT);
    let nums = vec![0, 1, 2, 5, 6, 7];
    assert_eq!(
        slots.eval_sequences(&nums),
        vec![Play::NumSequence(vec![0, 1, 2]), Play::NumSequence(vec![5, 6, 7])]
    );
    assert_eq!(slots.calc_score(&nums), Ok(30));
}

#[test]
fn order_does_not_matter() {
    let slots = Slots::new(SLOT_COUNT);
    let a = vec![3, 3, 4, 5, 5, 6];
    let b = vec![5, 6, 3, 5, 4, 3];
    let c = vec![6, 5, 5, 4, 3, 3];
    assert_eq!(slots.calc_score(&a), slots.calc_score(&b));
    assert_eq!(slots.calc_score(&a), slots.calc_score(&c));
}

#[test]
fn empty_sequence() {
    let slots = Slots::new(SLOT_COUNT);
    assert_eq!(slots.calc_score(&vec![]), Ok(0));
}

#[test]
fn invalid_digit_reported() {
    let slots = Slots::new(SLOT_COUNT);
    let nums = vec![1, 2, 10, 3, 11, 4];
    assert_eq!(slots.calc_score(&nums), Err(SlotsError::InvalidDigit { index: 2 }));
}

#[test]
fn play_weights() {
    assert_eq!(Play::NumSequence(vec![1, 2, 3]).get_score(), 15);
    assert_eq!(Play::NumMatch(vec![7, 7, 7]).get_score(), 12);
    assert_eq!(Play::HighNum(9).get_score(), 9);
}

#[test]
fn deal_fills_configured_length() {
    for count in [0usize, 1, 6, 10] {
        let mut slots = Slots::new(count);
        slots.deal(clock_ticks());
        assert_eq!(slots.nums().len(), count);
        assert!(slots.nums().iter().all(|d| *d <= 9));
    }
    let mut slots = Slots::default();
    slots.deal(clock_ticks());
    assert_eq!(slots.nums().len(), SLOT_COUNT);
}

#[test]
fn deal_with_same_seed_repeats() {
    let mut a = Slots::new(8);
    let mut b = Slots::new(8);
    a.deal_with(&mut SmallRng::from_seed(seed_from_ticks(1234567890)));
    b.deal_with(&mut SmallRng::from_seed(seed_from_ticks(1234567890)));
    assert_eq!(a.nums(), b.nums());
    assert_eq!(a.nums().len(), 8);
    assert!(a.nums().iter().all(|d| *d <= 9));
}

#[test]
fn nums_joined_by_bar() {
    let mut slots = Slots::new(SLOT_COUNT);
    assert_eq!(slots.get_nums(), "");
    slots.deal_with(&mut SmallRng::from_seed(seed_from_ticks(42)));
    let text = slots.get_nums();
    let expected: Vec<String> = slots.nums().iter().map(|d| d.to_string()).collect();
    assert_eq!(text, expected.join("|"));
    assert_eq!(text.len(), 2 * SLOT_COUNT - 1);
}

#[test]
fn evaluate_keeps_score() {
    let mut slots = Slots::new(SLOT_COUNT);
    assert_eq!(slots.last_score(), None);
    slots.deal_with(&mut SmallRng::from_seed(seed_from_ticks(7)));
    let expected = slots.calc_score(slots.nums()).unwrap();
    let score = slots.evaluate_nums();
    assert_eq!(score, expected);
    assert_eq!(slots.last_score(), Some(expected));
    slots.deal(clock_ticks());
    assert_eq!(slots.last_score(), None);
}

#[test]
fn seed_bytes_alternate() {
    let x: u128 = 0x0f0e0d0c0b0a09080706050403020100;
    assert_eq!(
        seed_from_ticks(x),
        [0, 15, 2, 13, 4, 11, 6, 9, 8, 7, 10, 5, 12, 3, 14, 1]
    );
    assert_eq!(seed_from_ticks(0), [0u8; 16]);
}

#[test]
fn deal_keeps_drawn_digits_in_order() {
    let mut slots = Slots::new(4);
    slots.deal_digits(vec![9, 0, 7, 7]);
    assert_eq!(slots.nums(), &vec![9, 0, 7, 7]);
    assert_eq!(slots.get_nums(), "9|0|7|7");
    assert_eq!(slots.evaluate_nums(), 8);
    slots.deal_digits(vec![1, 2, 3, 4]);
    assert_eq!(slots.last_score(), None);
    assert_eq!(slots.evaluate_nums(), 20);
}

#[test]
fn deal_same_ticks_repeats() {
    let mut a = Slots::new(SLOT_COUNT);
    let mut b = Slots::new(SLOT_COUNT);
    a.deal(1700000000);
    b.deal(1700000000);
    assert_eq!(a.nums(), b.nums());
    assert_eq!(a.nums().len(), SLOT_COUNT);
}

#[test]
fn break_splits_runs() {
    let slots = Slots::new(SLOT_COUNT);
    let nums = vec![3, 4, 5, 5, 6, 7];
    let mut split = slots.eval_sequences(&vec![3, 4, 5]);
    split.extend(slots.eval_sequences(&vec![5, 6, 7]));
    assert_eq!(slots.eval_sequences(&nums), split);
    assert_eq!(split.len(), 2);
}
