use adaptive_filter_search::adaptive::compute_adaptive_l;

#[test]
fn adaptive_l_high_match_rate_no_expansion() {
    // At least half match: the length stays.
    assert_eq!(compute_adaptive_l(100, 1000, 600), 100);
    assert_eq!(compute_adaptive_l(100, 1000, 500), 100);
}

#[test]
fn adaptive_l_medium_match_rate_doubles() {
    // A tenth to a half: twice.
    assert_eq!(compute_adaptive_l(100, 1000, 200), 200); // 20%
    assert_eq!(compute_adaptive_l(100, 1000, 100), 200); // 10%
}

#[test]
fn adaptive_l_low_match_rate_log_scale() {
    // About 1%: four times.
    let l = compute_adaptive_l(100, 1000, 10);
    assert!(l >= 400 && l <= 401, "expected ~400, got {l}");
    // About 0.1%: eight times.
    let l = compute_adaptive_l(100, 1000, 1);
    assert!(l >= 800 && l <= 801, "expected ~800, got {l}");
}

#[test]
fn adaptive_l_zero_matches_uses_max_multiplier() {
    assert_eq!(compute_adaptive_l(100, 1000, 0), 1600);
}

#[test]
fn adaptive_l_zero_visited_uses_max_multiplier() {
    assert_eq!(compute_adaptive_l(100, 0, 0), 1600);
}

#[test]
fn adaptive_l_capped_at_max_multiplier() {
    // Even with no match, not more than sixteen times.
    let l = compute_adaptive_l(50, 1000, 0);
    assert_eq!(l, 800);
}

/// The same formula in floating point.
fn in_floating_point(base_l: usize, visited: u32, matched: u32) -> usize {
    let rate = matched as f64 / visited as f64;
    let multiplier = 2.0_f64.powf(-rate.log10()).min(16.0);
    (base_l as f64 * multiplier).ceil() as usize
}

#[test]
fn log_scale_agrees_with_floating_point() {
    for base_l in [1usize, 7, 100, 333, 4096, 65536, 1000003] {
        for visited in [1000u32, 1001, 1017, 1234, 4096, 99991, 4294967295] {
            for matched in [1u32, 2, 3, 7, 37, 61, 89, 99, 1000, 9999, 123456, 400000000] {
                if 10 * (matched as u64) < visited as u64 && matched != 10 {
                    let l = compute_adaptive_l(base_l, visited, matched);
                    assert_eq!(
                        l,
                        in_floating_point(base_l, visited, matched),
                        "{base_l} {visited} {matched}"
                    );
                }
            }
        }
    }
}

#[test]
fn log_scale_exact_values() {
    assert_eq!(compute_adaptive_l(100, 1000, 37), 270);
    assert_eq!(compute_adaptive_l(100, 1000, 10), 400);
    assert_eq!(compute_adaptive_l(100, 1000, 1), 800);
    assert_eq!(compute_adaptive_l(100, 1000, 99), 201);
}

#[test]
fn rates_at_the_thresholds() {
    assert_eq!(compute_adaptive_l(100, 1001, 500), 200);
    assert_eq!(compute_adaptive_l(100, 1001, 100), 201);
    assert_eq!(compute_adaptive_l(100, 20000, 2), 1600);
    assert_eq!(compute_adaptive_l(100, 20000, 3), 1417);
    assert_eq!(compute_adaptive_l(100, 5, 6), 100);
}

#[test]
fn lengths_at_the_ends() {
    assert_eq!(compute_adaptive_l(0, 1000, 10), 0);
    assert_eq!(compute_adaptive_l(0, 1000, 0), 0);
    assert_eq!(compute_adaptive_l(usize::MAX, 1000, 0), usize::MAX);
    assert_eq!(compute_adaptive_l(usize::MAX, 1000, 37), usize::MAX);
    assert_eq!(compute_adaptive_l(usize::MAX, 1000, 200), usize::MAX);
    assert_eq!(compute_adaptive_l(usize::MAX, 1000, 600), usize::MAX);
}

#[test]
fn lower_rate_never_shortens() {
    let mut last = compute_adaptive_l(640, 1000, 1000);
    for matched in (0..1000).rev() {
        let l = compute_adaptive_l(640, 1000, matched);
        assert!(l >= last && l <= 640 * 16);
        last = l;
    }
    assert_eq!(last, 640 * 16);
}

#[test]
fn longer_base_never_shortens() {
    let mut last = 0;
    for base_l in 0..500 {
        let l = compute_adaptive_l(base_l, 1000, 13);
        assert!(l >= last && l >= 2 * base_l);
        last = l;
    }
}
