use llama_rust::rng::{random_draw, random_u32, DRAW_RANGE};

#[test]
fn first_outputs_from_seed_one() {
    let mut state: u64 = 1;
    assert_eq!(random_u32(&mut state), 1206177355);
    assert_eq!(state, 0x2000001);
    assert_eq!(random_u32(&mut state), 2882512552);
    assert_eq!(state, 0x4004000802801);
    assert_eq!(random_u32(&mut state), 3117485455);
    assert_eq!(state, 0xd004003202803);
}

#[test]
fn first_draws_from_seed_forty_two() {
    let mut state: u64 = 42;
    assert_eq!(random_draw(&mut state), 5688906);
    assert_eq!(random_draw(&mut state), 13124075);
    assert_eq!(random_draw(&mut state), 13256299);
    assert_eq!(state, 0x1fa08005045006e);
}

#[test]
fn draws_stay_below_the_range() {
    let mut state: u64 = 0xDEADBEEF;
    for _ in 0..1000 {
        assert!(random_draw(&mut state) < DRAW_RANGE);
    }
}

#[test]
fn a_draw_is_the_output_without_its_low_byte() {
    let mut a: u64 = 0xDEADBEEF;
    let mut b: u64 = 0xDEADBEEF;
    for _ in 0..10 {
        assert_eq!(random_draw(&mut a), random_u32(&mut b) >> 8);
        assert_eq!(a, b);
    }
}

#[test]
fn same_seed_same_stream() {
    let mut a: u64 = 7;
    let mut b: u64 = 7;
    for _ in 0..100 {
        assert_eq!(random_u32(&mut a), random_u32(&mut b));
    }
}

#[test]
fn state_zero_stays_zero() {
    let mut state: u64 = 0;
    assert_eq!(random_u32(&mut state), 0);
    assert_eq!(state, 0);
}
