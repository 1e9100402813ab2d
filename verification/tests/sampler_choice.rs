use llama_rust::engine::{Op, Span};
use llama_rust::kernel::Kernel;
use llama_rust::rng::DRAW_RANGE;
use llama_rust::sampler::{
    candidates_of, greedy, nucleus_of, pick_categorical, pick_listed, sum, Sampler, ONE,
};

const HALF: u32 = ONE / 2;
const NINE_TENTHS: u32 = 15099494;
const ONE_FIFTH: u32 = 3355443;

/// The candidates, listed over what the list held before.
fn candidates(weights: &Vec<u32>, top_p: u32) -> Vec<usize> {
    let mut list = vec![77, 78];
    candidates_of(weights, top_p, &mut list);
    list
}

/// The nucleus, listed over what the list held before.
fn nucleus(weights: &Vec<u32>, top_p: u32) -> Vec<usize> {
    let mut list = vec![77, 78, 79];
    nucleus_of(weights, top_p, &mut list);
    list
}

fn bits(values: &[f32]) -> Vec<u32> {
    values.iter().map(|v| v.to_bits()).collect()
}

/// A kernel whose softmax hands back fixed weights.
struct Fixed {
    weights: Vec<u32>,
    asked: usize,
}

impl Kernel for Fixed {
    fn run(&mut self, _op: &Op) {
        panic!("no forward pass in these tests");
    }

    fn read(&mut self, _span: &Span) -> Vec<u32> {
        panic!("no forward pass in these tests");
    }

    fn softmax(&mut self, _logits: &Vec<u32>, _temperature: u32) -> Vec<u32> {
        self.asked += 1;
        self.weights.clone()
    }
}

#[test]
fn greedy_takes_the_first_of_the_highest() {
    assert_eq!(greedy(&bits(&[1.0, 3.0, 3.0, -2.0])), 1);
    assert_eq!(greedy(&bits(&[5.0])), 0);
    assert_eq!(greedy(&bits(&[-1.0, -3.0, -0.5, -0.5])), 2);
    assert_eq!(greedy(&bits(&[0.0, -0.0, 0.0])), 0);
    assert_eq!(greedy(&bits(&[-0.0, 0.0, 1.0e-30])), 2);
    assert_eq!(greedy(&bits(&[f32::NEG_INFINITY, f32::INFINITY, f32::MAX])), 1);
    assert_eq!(greedy(&bits(&[2.0, 2.0, 2.0, 2.0])), 0);
}

#[test]
fn greedy_survives_logits_that_are_not_numbers() {
    let nan: u32 = 0x7fc0_0000;
    let negative_nan: u32 = 0xffc0_0000;
    assert_eq!(greedy(&vec![nan, nan, nan]), 0);
    assert_eq!(greedy(&vec![1.0f32.to_bits(), nan]), 1);
    assert_eq!(greedy(&vec![negative_nan, 1.0f32.to_bits()]), 1);
    assert_eq!(greedy(&vec![0, 0, 0, 0]), 0);
}

#[test]
fn sum_of_weights() {
    assert_eq!(sum(&vec![]), 0);
    assert_eq!(sum(&vec![10, 40, 30, 20]), 100);
    assert_eq!(sum(&vec![u32::MAX, u32::MAX]), 2 * (u32::MAX as u64));
}

#[test]
fn a_draw_falls_where_the_running_sum_passes_it() {
    let weights = vec![1, 2, 1];
    let quarter = DRAW_RANGE / 4;
    assert_eq!(pick_categorical(&weights, 0), 0);
    assert_eq!(pick_categorical(&weights, quarter - 1), 0);
    assert_eq!(pick_categorical(&weights, quarter), 1);
    assert_eq!(pick_categorical(&weights, 3 * quarter - 1), 1);
    assert_eq!(pick_categorical(&weights, 3 * quarter), 2);
    assert_eq!(pick_categorical(&weights, DRAW_RANGE - 1), 2);
}

#[test]
fn a_draw_never_falls_on_weight_zero() {
    let weights = vec![0, 5, 0, 5];
    assert_eq!(pick_categorical(&weights, 0), 1);
    assert_eq!(pick_categorical(&weights, DRAW_RANGE / 2 - 1), 1);
    assert_eq!(pick_categorical(&weights, DRAW_RANGE / 2), 3);
    assert_eq!(pick_categorical(&weights, DRAW_RANGE - 1), 3);
    assert_eq!(pick_categorical(&vec![0, 0, 7], 12345), 2);
}

#[test]
fn no_weight_at_all_gives_token_zero() {
    assert_eq!(pick_categorical(&vec![0, 0, 0], 0), 0);
    assert_eq!(pick_categorical(&vec![0, 0, 0], DRAW_RANGE - 1), 0);
    // No weight passes the cutoff, so all are candidates; none is needed
    // to reach a mass of nothing.
    assert_eq!(candidates(&vec![0, 0, 0], HALF), vec![0, 1, 2]);
    assert_eq!(nucleus(&vec![0, 0, 0], HALF), Vec::<usize>::new());
    let mut s = Sampler::new(3, 1.0f32.to_bits(), HALF, 9);
    assert_eq!(s.sample_weighted(&vec![0, 0, 0]), 0);
    let mut s = Sampler::new(3, 1.0f32.to_bits(), ONE, 9);
    assert_eq!(s.sample_weighted(&vec![0, 0, 0]), 0);
}

#[test]
fn candidates_exceed_the_cutoff() {
    // The cutoff is (1 - 0.5) / 3 of 100, so 16 and two thirds.
    assert_eq!(candidates(&vec![10, 40, 30, 20], HALF), vec![1, 2, 3]);
    assert_eq!(candidates(&vec![16, 40, 27, 17], HALF), vec![1, 2, 3]);
    // (1 - 0.9) / 3 of 100 is 3 and a third.
    assert_eq!(candidates(&vec![10, 40, 30, 20], NINE_TENTHS), vec![1, 2, 3, 0]);
    assert_eq!(candidates(&vec![3, 47, 30, 20], NINE_TENTHS), vec![1, 2, 3]);
    // A probability equal to the cutoff does not exceed it: (1 - 0.5) / 2
    // of 100 is 25.
    assert_eq!(candidates(&vec![25, 50, 25], HALF), vec![1]);
    assert_eq!(candidates(&vec![26, 50, 24], HALF), vec![1, 0]);
}

#[test]
fn candidates_of_equal_weight_keep_their_order() {
    assert_eq!(candidates(&vec![5, 5, 5, 5], NINE_TENTHS), vec![0, 1, 2, 3]);
    assert_eq!(candidates(&vec![30, 40, 30, 40], NINE_TENTHS), vec![1, 3, 0, 2]);
    assert_eq!(candidates(&vec![1, 2, 3, 4, 5, 6], NINE_TENTHS), vec![5, 4, 3, 2, 1, 0]);
}

#[test]
fn the_nucleus_ends_with_the_token_that_reaches_the_mass() {
    assert_eq!(nucleus(&vec![10, 40, 30, 20], HALF), vec![1, 2]);
    assert_eq!(nucleus(&vec![10, 40, 30, 20], NINE_TENTHS), vec![1, 2, 3]);
    assert_eq!(nucleus(&vec![5, 5, 5, 5], NINE_TENTHS), vec![0, 1, 2, 3]);
    // Half the mass is reached exactly by the first candidate.
    assert_eq!(nucleus(&vec![50, 30, 20], HALF), vec![0]);
    assert_eq!(nucleus(&vec![49, 31, 20], HALF), vec![0, 1]);
    assert_eq!(nucleus(&vec![0, 100, 0], HALF), vec![1]);
}

#[test]
fn the_nucleus_holds_the_mass_asked_for() {
    let cases: Vec<(Vec<u32>, u32)> = vec![
        (vec![10, 40, 30, 20], HALF),
        (vec![10, 40, 30, 20], NINE_TENTHS),
        (vec![5, 5, 5, 5], NINE_TENTHS),
        (vec![1, 1, 1, 1000], ONE_FIFTH),
        (vec![7, 0, 0, 3, 90, 0], 1),
        (vec![7, 0, 0, 3, 90, 0], ONE - 1),
        (vec![1, 2, 3, 4, 5, 6, 7, 8, 9, 10], HALF),
    ];
    let cases: Vec<(Vec<u32>, u32)> = cases
        .into_iter()
        .chain([
            (vec![5, 5, 5, 5], ONE_FIFTH),
            (vec![4512247, 12264969], 1677722),
            (vec![0, 0, 0], HALF),
            (vec![9], HALF),
            (vec![3, 1], ONE),
        ])
        .collect();
    for (weights, top_p) in cases {
        let kept = nucleus(&weights, top_p);
        let mass: u128 = kept.iter().map(|i| weights[*i] as u128).sum();
        let all: u128 = weights.iter().map(|w| *w as u128).sum();
        assert!(mass * (ONE as u128) >= (top_p as u128) * all, "{:?} {}", weights, top_p);
    }
}

#[test]
fn where_no_token_passes_the_cutoff_all_are_candidates() {
    // Every probability is a quarter, and the cutoff (1 - 0.2) / 3 is more.
    assert_eq!(candidates(&vec![5, 5, 5, 5], ONE_FIFTH), vec![0, 1, 2, 3]);
    assert_eq!(nucleus(&vec![5, 5, 5, 5], ONE_FIFTH), vec![0]);
    assert_eq!(candidates(&vec![25, 26, 25, 24], ONE_FIFTH), vec![1, 0, 2, 3]);
    assert_eq!(nucleus(&vec![25, 26, 25, 24], ONE_FIFTH), vec![1]);
    // One token above the cutoff is the only candidate.
    assert_eq!(candidates(&vec![25, 27, 25, 23], ONE_FIFTH), vec![1]);
    let mut s = Sampler::new(4, 1.0f32.to_bits(), ONE_FIFTH, 42);
    assert_eq!(s.sample_weighted(&vec![25, 26, 25, 24]), 1);
    assert_eq!(s.rng_state, 0x54000020);
    // Two tokens, neither above the cutoff of nine tenths: the heavier one
    // alone holds a tenth of the mass.
    let weights: Vec<u32> = vec![4512247, 12264969];
    let tenth: u32 = 1677722;
    assert_eq!(candidates(&weights, tenth), vec![1, 0]);
    assert_eq!(nucleus(&weights, tenth), vec![1]);
    let mut s = Sampler::new(2, 1.0f32.to_bits(), tenth, 42);
    for _ in 0..5 {
        assert_eq!(s.sample_weighted(&weights), 1);
    }
    assert_eq!(pick_listed(&vec![5, 5, 5, 5], &vec![], 77), 0);
}

#[test]
fn a_single_token_is_always_chosen() {
    assert_eq!(candidates(&vec![9], HALF), vec![0]);
    assert_eq!(nucleus(&vec![9], HALF), vec![0]);
    let mut s = Sampler::new(1, 1.0f32.to_bits(), HALF, 3);
    assert_eq!(s.sample_weighted(&vec![9]), 0);
    let mut s = Sampler::new(1, 1.0f32.to_bits(), ONE, 3);
    assert_eq!(s.sample_weighted(&vec![9]), 0);
    assert_eq!(greedy(&vec![9]), 0);
}

#[test]
fn a_draw_falls_on_the_first_entry_that_meets_it() {
    let weights = vec![10, 40, 30, 20];
    let list = vec![1, 2];
    // The list weighs 70, its first entry 40: draws up to 40/70 of the
    // range fall on it.
    assert_eq!(pick_listed(&weights, &list, 0), 1);
    assert_eq!(pick_listed(&weights, &list, 9586980), 1);
    assert_eq!(pick_listed(&weights, &list, 9586981), 2);
    assert_eq!(pick_listed(&weights, &list, DRAW_RANGE - 1), 2);
    assert_eq!(pick_listed(&weights, &vec![3], 5), 3);
    // A draw that meets the mass exactly falls on the entry that reaches it.
    assert_eq!(pick_listed(&vec![1, 1], &vec![0, 1], DRAW_RANGE / 2), 0);
    assert_eq!(pick_listed(&vec![1, 1], &vec![0, 1], DRAW_RANGE / 2 + 1), 1);
}

#[test]
fn tokens_drawn_from_the_nucleus() {
    let weights = vec![10, 40, 30, 20];
    let mut s = Sampler::new(4, 1.0f32.to_bits(), HALF, 42);
    // The draws from seed 42 are 5688906, 13124075, 13256299.
    assert_eq!(s.sample_weighted(&weights), 1);
    assert_eq!(s.rng_state, 0x54000020);
    assert_eq!(s.sample_weighted(&weights), 2);
    assert_eq!(s.sample_weighted(&weights), 2);
    assert_eq!(s.rng_state, 0x1fa08005045006e);
    assert_eq!(s.top_p, HALF);
    assert_eq!(s.vocab_size, 4);
}

#[test]
fn tokens_drawn_from_the_whole_distribution() {
    let weights = vec![10, 40, 30, 20];
    for top_p in [ONE, 0] {
        let mut s = Sampler::new(4, 1.0f32.to_bits(), top_p, 42);
        assert_eq!(s.sample_weighted(&weights), 1);
        assert_eq!(s.sample_weighted(&weights), 2);
        assert_eq!(s.sample_weighted(&weights), 2);
        assert_eq!(s.rng_state, 0x1fa08005045006e);
    }
    let mut s = Sampler::new(4, 1.0f32.to_bits(), ONE, 1);
    // The draw from seed 1 is 4711630, 28 hundredths of the range.
    assert_eq!(s.sample_weighted(&weights), 1);
    assert_eq!(s.sample_weighted(&vec![30, 10, 30, 30]), 2);
}

#[test]
fn same_seed_same_tokens() {
    let inputs: Vec<Vec<u32>> = vec![
        vec![10, 40, 30, 20],
        vec![1, 1, 1, 1],
        vec![0, 0, 9, 1],
        vec![50, 1, 1, 48],
        vec![3, 3, 3, 91],
    ];
    for top_p in [ONE, HALF, NINE_TENTHS, ONE_FIFTH] {
        for seed in [1u64, 42, 0xDEADBEEF] {
            let mut a = Sampler::new(4, 1.0f32.to_bits(), top_p, seed);
            let mut b = Sampler::new(4, 1.0f32.to_bits(), top_p, seed);
            for round in 0..20 {
                let weights = &inputs[round % inputs.len()];
                assert_eq!(a.sample_weighted(weights), b.sample_weighted(weights));
                assert_eq!(a, b);
            }
        }
    }
}

#[test]
fn temperature_zero_takes_the_highest_logit_and_no_draw() {
    let mut kernel = Fixed { weights: vec![1, 1, 1, 1], asked: 0 };
    let mut s = Sampler::new(4, 0.0f32.to_bits(), HALF, 42);
    assert!(s.is_greedy());
    let logits = bits(&[0.5, 2.0, 2.0, -1.0]);
    for _ in 0..3 {
        assert_eq!(s.sample(&mut kernel, &logits), Some(1));
    }
    assert_eq!(s.rng_state, 42);
    assert_eq!(kernel.asked, 0);
    let mut s = Sampler::new(4, (-0.0f32).to_bits(), HALF, 42);
    assert!(s.is_greedy());
    assert_eq!(s.sample(&mut kernel, &logits), Some(1));
}

#[test]
fn a_positive_temperature_draws_from_the_kernels_weights() {
    let mut kernel = Fixed { weights: vec![10, 40, 30, 20], asked: 0 };
    let mut s = Sampler::new(4, 1.0f32.to_bits(), HALF, 42);
    assert!(!s.is_greedy());
    let logits = bits(&[0.5, 2.0, 2.0, -1.0]);
    assert_eq!(s.sample(&mut kernel, &logits), Some(1));
    assert_eq!(s.sample(&mut kernel, &logits), Some(2));
    assert_eq!(kernel.asked, 2);
    assert_eq!(s.rng_state, 0xa80a8001041022);
}

#[test]
fn vectors_of_the_wrong_length_are_refused() {
    let mut kernel = Fixed { weights: vec![10, 40, 30], asked: 0 };
    let mut s = Sampler::new(4, 1.0f32.to_bits(), HALF, 42);
    assert_eq!(s.sample(&mut kernel, &bits(&[0.5, 2.0, 2.0, -1.0])), None);
    assert_eq!(s.sample(&mut kernel, &bits(&[0.5, 2.0, 2.0])), None);
    assert_eq!(s.sample(&mut kernel, &vec![]), None);
    assert_eq!(s.rng_state, 42);
    let mut s = Sampler::new(4, 0.0f32.to_bits(), HALF, 42);
    assert_eq!(s.sample(&mut kernel, &bits(&[0.5, 2.0, 2.0])), None);
    assert_eq!(s.sample(&mut kernel, &bits(&[0.5, 2.0, 2.0, 1.0, 1.0])), None);
}

#[test]
fn tokens_drawn_one_after_the_other() {
    let inputs: Vec<Vec<u32>> = vec![
        vec![10, 40, 30, 20],
        vec![10, 40, 30, 20],
        vec![10, 40, 30, 20],
        vec![0, 0, 9, 1],
    ];
    let mut s = Sampler::new(4, 1.0f32.to_bits(), HALF, 42);
    let tokens = s.draw_each(&inputs);
    assert_eq!(tokens[..3], [1, 2, 2]);
    assert_eq!(tokens[3], 2);
    // Four draws were taken, the same as by four calls.
    let mut one_by_one = Sampler::new(4, 1.0f32.to_bits(), HALF, 42);
    let singly: Vec<usize> = inputs.iter().map(|w| one_by_one.sample_weighted(w)).collect();
    assert_eq!(tokens, singly);
    assert_eq!(s.rng_state, one_by_one.rng_state);
    assert_eq!(Sampler::new(4, 1.0f32.to_bits(), HALF, 42).draw_each(&vec![]), vec![]);
}
