use kubesense_log_pattern::similarity::SimThreshold;

fn admits(matched: usize, total: usize, threshold: f64) -> bool {
    SimThreshold::from_bits(threshold.to_bits()).admits(matched, total)
}

fn quotient_reaches(matched: usize, total: usize, threshold: f64) -> bool {
    matched as f64 / total as f64 >= threshold
}

#[test]
fn one_half() {
    assert!(admits(1, 2, 0.5));
    assert!(admits(2, 4, 0.5));
    assert!(!admits(1, 3, 0.5));
    assert!(admits(2, 3, 0.5));
}

#[test]
fn two_fifths_reach_their_own_quotient() {
    assert_eq!(0.4f64.to_bits(), 0x3FD9_9999_9999_999A);
    assert!(admits(2, 5, 0.4));
    assert!(!admits(3, 8, 0.4));
    assert!(admits(4, 9, 0.4));
}

#[test]
fn thresholds_that_are_always_or_never_reached() {
    assert!(admits(0, 7, 0.0));
    assert!(admits(0, 7, -0.0));
    assert!(admits(0, 7, -3.5));
    assert!(admits(0, 7, f64::NEG_INFINITY));
    assert!(!admits(7, 7, 1.0000000000000002));
    assert!(!admits(7, 7, 2.0));
    assert!(!admits(7, 7, f64::INFINITY));
    assert!(!admits(7, 7, f64::NAN));
    assert!(!admits(7, 7, -f64::NAN));
    assert!(admits(7, 7, 1.0));
    assert!(!admits(6, 7, 1.0));
}

#[test]
fn tiny_thresholds_are_reached_by_any_match() {
    for t in [f64::from_bits(1), f64::MIN_POSITIVE, f64::from_bits(0x000F_FFFF_FFFF_FFFF), 1e-300, 1e-30] {
        assert!(!admits(0, 1000, t));
        assert!(admits(1, 1000, t));
        assert!(admits(1, usize::MAX, t));
    }
}

#[test]
fn agrees_with_the_division_around_every_quotient() {
    for total in 1usize..60 {
        for count in 0..=total {
            let q = count as f64 / total as f64;
            let near = [
                q.to_bits(),
                q.to_bits() + 1,
                q.to_bits().saturating_sub(1),
                q.to_bits() + 2,
                q.to_bits().saturating_sub(2),
            ];
            for bits in near {
                let t = f64::from_bits(bits);
                for matched in 0..=total {
                    assert_eq!(
                        admits(matched, total, t),
                        quotient_reaches(matched, total, t),
                        "{matched} of {total} against {t:e}"
                    );
                }
            }
        }
    }
}

#[test]
fn agrees_with_the_division_for_long_lines() {
    let mut seed: u64 = 0x9E37_79B9_7F4A_7C15;
    for _ in 0..20000 {
        seed = seed.wrapping_mul(6364136223846793005).wrapping_add(1442695040888963407);
        let total = (seed >> 12) as usize % (1 << 52) + 1;
        seed = seed.wrapping_mul(6364136223846793005).wrapping_add(1442695040888963407);
        let matched = (seed >> 12) as usize % (total + 1);
        let q = matched as f64 / total as f64;
        for bits in [q.to_bits(), q.to_bits() + 1, q.to_bits().saturating_sub(1)] {
            let t = f64::from_bits(bits);
            assert_eq!(admits(matched, total, t), quotient_reaches(matched, total, t));
        }
    }
}

#[test]
fn agrees_with_the_division_at_powers_of_two() {
    for shift in 1u32..60 {
        let t = 1.0 / (1u64 << shift) as f64;
        for bits in [t.to_bits() - 1, t.to_bits(), t.to_bits() + 1] {
            let t = f64::from_bits(bits);
            for total in [3usize, 1 << 20, (1 << 20) + 1, (1 << 52) - 1, 1 << 52] {
                let near = (total as f64 * t) as usize;
                for matched in [0, near.saturating_sub(1), near, near + 1] {
                    if matched <= total {
                        assert_eq!(admits(matched, total, t), quotient_reaches(matched, total, t));
                    }
                }
            }
        }
    }
}

#[test]
fn more_matches_are_a_greater_quotient() {
    // The value one is reached by all matches and not by one less.
    let total = (1usize << 53) - 1;
    assert!(admits(total, total, 1.0));
    assert!(!admits(total - 1, total, 1.0));
}
