use hnsw::level::{draw, height, INITIAL_STATE, MAX_DEGREE, MAX_DEGREE_ZERO, MAX_HEIGHT};

#[test]
fn policy_constants() {
    assert_eq!(MAX_DEGREE, 12);
    assert_eq!(MAX_DEGREE_ZERO, 24);
    assert_eq!(MAX_HEIGHT, 16);
}

#[test]
fn height_counts_divisions_by_the_maximum_degree() {
    assert_eq!(height(1), 0);
    assert_eq!(height(11), 0);
    assert_eq!(height(12), 1);
    assert_eq!(height(24), 1);
    assert_eq!(height(143), 0);
    assert_eq!(height(144), 2);
    assert_eq!(height(144 * 5), 2);
    assert_eq!(height(1728), 3);
    assert_eq!(height(u64::MAX), 0);
}

#[test]
fn zero_stands_for_height_zero() {
    assert_eq!(height(0), 0);
}

#[test]
fn height_is_capped() {
    // 12^17 still fits in 64 bits
    let mut w: u64 = 1;
    for _ in 0..17 {
        w *= 12;
    }
    assert_eq!(height(w), 16);
    assert_eq!(height(w / 12), 16);
    assert_eq!(height(w / 144), 15);
}

#[test]
fn generator_steps_by_a_fixed_increment() {
    let mut s = 0u64;
    let _ = draw(&mut s);
    assert_eq!(s, 0x9e37_79b9_7f4a_7c15);
    let _ = draw(&mut s);
    assert_eq!(s, 0x9e37_79b9_7f4a_7c15u64.wrapping_mul(2));
    let mut t = u64::MAX;
    let _ = draw(&mut t);
    assert_eq!(t, 0x9e37_79b9_7f4a_7c14);
}

#[test]
fn generator_words_from_state_zero() {
    // the first outputs of the splitmix64 sequence seeded with zero
    let mut s = 0u64;
    assert_eq!(draw(&mut s), 0xe220a8397b1dcdaf);
    assert_eq!(draw(&mut s), 0x6e789e6aa1b965f4);
    assert_eq!(draw(&mut s), 0x06c45d188009454f);
}

#[test]
fn generator_is_reproducible() {
    let mut a = INITIAL_STATE;
    let mut b = INITIAL_STATE;
    for _ in 0..100 {
        assert_eq!(draw(&mut a), draw(&mut b));
    }
    assert_eq!(a, b);
}

#[test]
fn about_one_word_in_twelve_rises() {
    let mut s = INITIAL_STATE;
    let mut risen = 0usize;
    let n = 120_000usize;
    for _ in 0..n {
        if height(draw(&mut s)) >= 1 {
            risen += 1;
        }
    }
    // expected 10_000
    assert!(risen > 9_000 && risen < 11_000, "risen = {}", risen);
}
