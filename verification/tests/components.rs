use fpaq0::apm::Apm;
use fpaq0::logistic::{squash, Stretch};
use fpaq0::predictor::Predictor;
use fpaq0::state_map::StateMap;
use fpaq0::state_table::next_state;

#[test]
fn squash_saturates_and_hits_known_points() {
    assert_eq!(squash(-9999), 0);
    assert_eq!(squash(-2048), 0);
    assert_eq!(squash(-2047), 1);
    assert_eq!(squash(0), 2047);
    assert_eq!(squash(2047), 4094);
    assert_eq!(squash(2048), 4095);
    assert_eq!(squash(9999), 4095);
}

#[test]
fn squash_is_monotone_and_bounded() {
    let mut prev = squash(-2048);
    for d in -2047..=2048 {
        let v = squash(d);
        assert!(0 <= v && v <= 4095);
        assert!(prev <= v);
        prev = v;
    }
}

#[test]
fn stretch_inverts_squash() {
    let s = Stretch::new();
    assert_eq!(s.stretch(0), -2047);
    assert_eq!(s.stretch(2047), 0);
    assert_eq!(s.stretch(4095), 2047);
    // The table entry is the least stretched value whose squash reaches p.
    for p in 0..4095 {
        let x = s.stretch(p);
        assert!(squash(x) >= p);
        if x > -2047 {
            assert!(squash(x - 1) < p);
        }
    }
}

#[test]
fn state_table_known_transitions() {
    assert_eq!(next_state(0, 0), 1);
    assert_eq!(next_state(0, 1), 2);
    assert_eq!(next_state(1, 0), 3);
    assert_eq!(next_state(1, 1), 5);
    assert_eq!(next_state(253, 0), 0);
    assert_eq!(next_state(255, 1), 0);
}

#[test]
fn state_map_adapts_monotonically_toward_one() {
    let mut sm = StateMap::new(256);
    let mut prev = -1;
    for _ in 0..200 {
        let p = sm.p(1, 5);
        assert!(0 <= p && p < 4096);
        if prev >= 0 {
            assert!(p >= prev);
        }
        prev = p;
    }
    // A long run of ones drives the estimate close to the top of the scale.
    assert!(prev > 3800);
}

#[test]
fn state_map_adapts_monotonically_toward_zero() {
    let mut sm = StateMap::new(256);
    let mut prev = 4096;
    for _ in 0..200 {
        let p = sm.p(0, 5);
        assert!(0 <= p && p < 4096);
        assert!(p <= prev);
        prev = p;
    }
    assert!(prev < 300);
}

#[test]
fn apm_output_bounded_and_adapts_toward_one() {
    let mut apm = Apm::new(256);
    let mut prev = -1;
    for _ in 0..300 {
        let r = apm.p(1, 5, 2048, 7);
        assert!(0 <= r && r < 4096);
        if prev >= 0 {
            assert!(r >= prev);
        }
        prev = r;
    }
    assert!(prev > 3800);
}

#[test]
fn apm_adapts_toward_zero() {
    let mut apm = Apm::new(256);
    let mut prev = 4096;
    for _ in 0..300 {
        let r = apm.p(0, 5, 2048, 7);
        assert!(0 <= r && r < 4096);
        assert!(r <= prev);
        prev = r;
    }
    assert!(prev < 300);
}

#[test]
fn apm_fresh_map_passes_probability_through() {
    // Context 0 of a fresh map holds the identity-like default curve, so the
    // first refinement stays close to its input.
    for pr in [100, 1000, 2048, 3000, 4000] {
        let mut apm = Apm::new(256);
        let r = apm.p(0, 7, pr, 0);
        assert!((r - pr).abs() <= 64);
    }
}

#[test]
fn predictor_probability_always_in_range() {
    let mut pred = Predictor::new();
    assert_eq!(pred.p(), 2048);
    let mut state: u32 = 12345;
    for _ in 0..5000 {
        state = state.wrapping_mul(1103515245).wrapping_add(12345);
        let bit = ((state >> 16) & 1) as u8;
        pred.update(bit);
        let p = pred.p();
        assert!(0 <= p && p < 4096);
    }
}

#[test]
fn predictor_learns_a_constant_stream() {
    let mut pred = Predictor::new();
    for _ in 0..2000 {
        pred.update(1);
    }
    assert!(pred.p() > 3500);
}

#[test]
fn state_map_known_first_updates() {
    // A fresh cell packs probability one half: the first prediction for any
    // context reads 2048. One observed 1 under count 0 moves the packed
    // estimate by (2^18 - 2^17) * (32768 / 5) rounded to a multiple of 512.
    let mut sm = StateMap::new(256);
    assert_eq!(sm.p(1, 5), 2048);
    assert_eq!(sm.p(1, 5), 2867);
}

#[test]
fn apm_known_first_refinement() {
    // On a fresh map, probability 2048 stretches to 1, selecting bins 16 and
    // 17 of context 0 with weight 1: (32752 * 127 + 40784 * 1) / 2048.
    let mut apm = Apm::new(256);
    assert_eq!(apm.p(0, 7, 2048, 0), 2050);
}
