use gem_align::error::FitError;
use gem_align::fit::chi2_fit;
use gem_align::gradient::gradient;
use gem_align::eventset::shift_plane;
use gem_align::optimizer::{gradient_descent, Descent, Ending, Observation, Settings};

/// Ticks to the length unit in the scenarios below.
const T: i64 = 900_000_000;

fn depths() -> Vec<i64> {
    vec![0, 180 * T, 700 * T]
}

fn small_depths() -> Vec<i64> {
    vec![0, 180, 700]
}

fn settings(rate_num: u32, rate_den: u32, tolerance: u64, cap: u64, every: u64) -> Settings {
    Settings {
        rate_num,
        rate_den,
        tolerance,
        max_iterations: cap,
        epsilon: 1,
        target: 1,
        report_every: every,
    }
}

/// Three tracks that are straight lines through the planes.
fn straight_tracks() -> Vec<Vec<i64>> {
    vec![
        vec![0, 2 * T, 7_000_000_000],
        vec![5 * T, T, -9_500_000_000],
        vec![-3 * T, 0, 7_800_000_000],
    ]
}

#[test]
fn standard_settings() {
    let s = Settings::standard(900_000_000).unwrap();
    assert_eq!(
        s,
        Settings {
            rate_num: 1,
            rate_den: 20_000,
            tolerance: 900_000,
            max_iterations: 4_000,
            epsilon: 900,
            target: 1,
            report_every: 10,
        }
    );
    assert!(s.is_valid());
    assert_eq!(Settings::standard(1_000_000).unwrap().epsilon, 1);
    assert_eq!(Settings::standard(1_000_000).unwrap().tolerance, 1_000);
    assert_eq!(Settings::standard(999_999), None);
    assert_eq!(Settings::standard(0), None);
    assert_eq!(Settings::standard(4_294_967_295_999_999).unwrap().epsilon, u32::MAX);
    assert_eq!(Settings::standard(4_294_967_296_000_000), None);
}

#[test]
fn validity_of_settings() {
    assert!(settings(1, 1, 0, 0, 0).is_valid());
    assert!(!settings(1, 0, 0, 0, 0).is_valid());
    let mut s = settings(1, 1, 0, 0, 0);
    s.epsilon = 0;
    assert!(!s.is_valid());
    let mut s = settings(1, 1, 0, 0, 0);
    s.target = 3;
    assert!(!s.is_valid());
}

#[test]
fn descent_undoes_a_known_offset() {
    let cfg = Settings::standard(T as u64).unwrap();
    let delta = 3 * T / 2;
    let mut data = straight_tracks();
    for row in data.iter_mut() {
        row[1] += delta;
    }
    let run = gradient_descent(&mut data, &depths(), &cfg);
    assert_eq!(run.ending, Ending::Converged);
    assert_eq!(run.iterations, 49);
    assert_eq!(run.shift, -1_349_999_857);
    // within a millionth of a unit of the offset, with the opposite sign
    assert!((run.shift + delta).abs() <= T / 1_000_000);
    assert!(run.iterations < cfg.max_iterations);
    // the events were displaced by the shift
    let straight = straight_tracks();
    for (row, was) in data.iter().zip(straight.iter()) {
        assert_eq!(row[0], was[0]);
        assert_eq!(row[1], was[1] + delta + run.shift);
        assert_eq!(row[2], was[2]);
    }
    // the gradient where the descent stopped is within the tolerance
    let g = gradient(&data, &depths(), cfg.target, cfg.epsilon).unwrap();
    assert!(g.unsigned_abs() <= cfg.tolerance as u128);
}

#[test]
fn descent_undoes_a_known_offset_of_the_other_sign() {
    let cfg = Settings::standard(T as u64).unwrap();
    let delta = -3 * T / 2;
    let mut data = straight_tracks();
    for row in data.iter_mut() {
        row[1] += delta;
    }
    let run = gradient_descent(&mut data, &depths(), &cfg);
    assert_eq!(run.ending, Ending::Converged);
    assert_eq!(run.iterations, 50);
    assert_eq!(run.shift, 1_349_999_857);
    assert_eq!(
        run.log,
        vec![
            Observation {
                iteration: 10,
                gradient: -466017608220,
                shift: 1266967824,
                cost: Ok(19396960070701303681),
            },
            Observation {
                iteration: 20,
                gradient: -17084205958,
                shift: 1346978253,
                cost: Ok(25814390058791803),
            },
            Observation {
                iteration: 30,
                gradient: -615875825,
                shift: 1349891096,
                cost: Ok(33535778743984),
            },
            Observation {
                iteration: 40,
                gradient: -22196936,
                shift: 1349996075,
                cost: Ok(43561493196),
            },
            Observation { iteration: 50, gradient: -808703, shift: 1349999857, cost: Ok(57822332) },
        ]
    );
}

#[test]
fn steep_track_with_the_standard_rate_is_capped() {
    // Depths 0, 180 and 700, samples on x = z / 180, the middle plane
    // displaced by two units. With the standard learning rate the descent
    // swings about the answer and runs into its cap.
    let cfg = Settings::standard(T as u64).unwrap();
    let mut data = vec![vec![0, T + 2 * T, 3_500_000_000]];
    let run = gradient_descent(&mut data, &depths(), &cfg);
    assert_eq!(run.ending, Ending::Capped);
    assert_eq!(run.iterations, 4_000);
    assert_eq!(run.shift, -1_868_829_157);
    assert_eq!(run.log.len(), 400);
    assert_eq!(data, vec![vec![0, 831_170_843, 3_500_000_000]]);
    // still within a tenth of a unit of the offset
    assert!((run.shift + 2 * T).abs() <= T / 10);
}

#[test]
fn steep_track_with_half_the_rate_converges() {
    let mut cfg = Settings::standard(T as u64).unwrap();
    cfg.rate_den = 40_000;
    let mut data = vec![vec![0, T + 2 * T, 3_500_000_000]];
    let run = gradient_descent(&mut data, &depths(), &cfg);
    assert_eq!(
        run,
        Descent { shift: -2 * T, iterations: 6, ending: Ending::Converged, log: Vec::new() }
    );
    assert!((run.shift + 2 * T).abs() <= T / 100);
    assert_eq!(data, vec![vec![0, T, 3_500_000_000]]);
    assert_eq!(chi2_fit(&data, &depths()), Ok(0));
}

#[test]
fn iteration_count_never_exceeds_the_cap() {
    for cap in [1u64, 2, 3, 5, 12, 100] {
        let mut data = vec![vec![0, 3, 4], vec![10, 20, 35]];
        let run = gradient_descent(&mut data, &small_depths(), &settings(1, 1000, 100, cap, 0));
        assert!(run.iterations >= 1);
        assert!(run.iterations <= cap);
        assert_eq!(run.ending, Ending::Capped);
        assert_eq!(run.iterations, cap);
    }
}

#[test]
fn descent_that_makes_no_headway_ends_at_the_cap() {
    // The step rounds to nothing while the gradient stays beyond the
    // tolerance, so nothing moves and the cap ends the descent.
    let mut data = vec![vec![0, 300, 400], vec![7, 100, 900]];
    let run = gradient_descent(&mut data, &small_depths(), &settings(1, 100_000, 50, 200, 25));
    assert_eq!(run.shift, 0);
    assert_eq!(run.iterations, 200);
    assert_eq!(run.ending, Ending::Capped);
    assert_eq!(run.log.len(), 8);
    for (k, o) in run.log.iter().enumerate() {
        assert_eq!(
            *o,
            Observation { iteration: 25 * (k as u64 + 1), gradient: 272, shift: 0, cost: Ok(39785) }
        );
    }
    assert_eq!(data, vec![vec![0, 300, 400], vec![7, 100, 900]]);
}

#[test]
fn capped_descent_reports_what_it_achieved() {
    let mut data = vec![vec![0, 3, 4], vec![10, 20, 35]];
    let run = gradient_descent(&mut data, &small_depths(), &settings(1, 1000, 100, 12, 5));
    assert_eq!(
        run,
        Descent {
            shift: -7,
            iterations: 12,
            ending: Ending::Capped,
            log: vec![
                Observation { iteration: 5, gradient: -2932, shift: -24, cost: Ok(153535) },
                Observation { iteration: 10, gradient: -11033, shift: -7, cost: Ok(67109) },
            ],
        }
    );
    assert_eq!(data, vec![vec![0, -4, 4], vec![10, 13, 35]]);
}

#[test]
fn counter_starts_at_one_whatever_the_cap() {
    let mut data = vec![vec![0, 3, 4]];
    let run = gradient_descent(&mut data, &small_depths(), &settings(1, 1000, 100, 0, 0));
    assert_eq!(run, Descent { shift: 0, iterations: 1, ending: Ending::Capped, log: Vec::new() });
    assert_eq!(data, vec![vec![0, 3, 4]]);
}

#[test]
fn descent_at_rest_converges_at_once() {
    let mut data = vec![vec![0, 18, 70]];
    let run = gradient_descent(&mut data, &small_depths(), &settings(1, 1, 0, 50, 1));
    assert_eq!(
        run,
        Descent {
            shift: 0,
            iterations: 1,
            ending: Ending::Converged,
            log: vec![Observation { iteration: 1, gradient: 0, shift: 0, cost: Ok(0) }],
        }
    );
    assert_eq!(data, vec![vec![0, 18, 70]]);
}

#[test]
fn convergence_is_told_before_the_cap() {
    // converged on the very iteration at which the cap would have struck
    let mut data = vec![vec![0, 18, 70]];
    let run = gradient_descent(&mut data, &small_depths(), &settings(1, 1, 0, 1, 0));
    assert_eq!(run.ending, Ending::Converged);
    assert_eq!(run.iterations, 1);
}

#[test]
fn one_step_of_the_descent() {
    // gradient 57967, learning rate one: the plane moves back by 57967
    let mut data = vec![vec![0, 3, 4]];
    let run = gradient_descent(&mut data, &small_depths(), &settings(1, 1, 0, 50, 7));
    assert_eq!(
        run,
        Descent { shift: -57967, iterations: 2, ending: Ending::Converged, log: Vec::new() }
    );
    assert_eq!(data, vec![vec![0, -57964, 4]]);
}

#[test]
fn other_planes_can_be_the_target() {
    let mut cfg = settings(3, 100_000, 50, 200, 0);
    cfg.epsilon = 2;
    cfg.target = 2;
    let mut data = vec![vec![0, 300, 400], vec![7, 100, 900]];
    let run = gradient_descent(&mut data, &small_depths(), &cfg);
    assert_eq!(run.ending, Ending::Capped);
    assert_eq!(run.iterations, 200);
    cfg.target = 0;
    cfg.rate_num = 1;
    let mut data = vec![vec![0, 300, 400], vec![7, 100, 900]];
    let run = gradient_descent(&mut data, &small_depths(), &cfg);
    assert_eq!(
        run,
        Descent { shift: 0, iterations: 1, ending: Ending::Converged, log: Vec::new() }
    );
}

#[test]
fn invalid_settings_fail_the_descent() {
    let failed = Descent {
        shift: 0,
        iterations: 1,
        ending: Ending::Failed(FitError::InvalidSettings),
        log: Vec::new(),
    };
    let mut data = vec![vec![0, 3, 4]];
    assert_eq!(gradient_descent(&mut data, &small_depths(), &settings(1, 0, 0, 50, 1)), failed);
    let mut cfg = settings(1, 1, 0, 50, 1);
    cfg.epsilon = 0;
    assert_eq!(gradient_descent(&mut data, &small_depths(), &cfg), failed);
    let mut cfg = settings(1, 1, 0, 50, 1);
    cfg.target = 3;
    assert_eq!(gradient_descent(&mut data, &small_depths(), &cfg), failed);
    assert_eq!(data, vec![vec![0, 3, 4]]);
}

#[test]
fn descent_on_nothing_fails() {
    let mut data: Vec<Vec<i64>> = Vec::new();
    let run = gradient_descent(&mut data, &small_depths(), &settings(1, 1, 0, 50, 1));
    assert_eq!(
        run,
        Descent {
            shift: 0,
            iterations: 1,
            ending: Ending::Failed(FitError::NoEvents),
            log: Vec::new(),
        }
    );
}

#[test]
fn degenerate_probe_fails_the_descent() {
    let mut data = vec![vec![5, 6, 5]];
    let run = gradient_descent(&mut data, &small_depths(), &settings(1, 1, 0, 50, 1));
    assert_eq!(run.ending, Ending::Failed(FitError::Degenerate));
    assert_eq!(run.iterations, 1);
    assert_eq!(run.shift, 0);
    assert_eq!(data, vec![vec![5, 6, 5]]);
}

#[test]
fn step_that_is_too_large_is_not_applied() {
    let mut data = vec![vec![0, 3, 4]];
    let run = gradient_descent(&mut data, &small_depths(), &settings(4_000_000_000, 1, 0, 50, 1));
    assert_eq!(
        run,
        Descent {
            shift: 0,
            iterations: 1,
            ending: Ending::Failed(FitError::OutOfRange),
            log: vec![Observation { iteration: 1, gradient: 57967, shift: 0, cost: Ok(73246) }],
        }
    );
    assert_eq!(data, vec![vec![0, 3, 4]]);
}

#[test]
fn step_that_leaves_the_range_fails_the_next_gradient() {
    let mut data = vec![vec![0, 3, 4]];
    let run = gradient_descent(&mut data, &small_depths(), &settings(28_450_000, 1, 0, 50, 1));
    assert_eq!(
        run,
        Descent {
            shift: -1_649_161_150_000,
            iterations: 2,
            ending: Ending::Failed(FitError::OutOfRange),
            log: vec![Observation { iteration: 1, gradient: 57967, shift: 0, cost: Ok(73246) }],
        }
    );
    assert_eq!(data, vec![vec![0, -1_649_161_149_997, 4]]);
}

#[test]
fn same_input_same_descent() {
    let cfg = settings(1, 1000, 100, 40, 3);
    let mut a = vec![vec![0, 3, 4], vec![10, 20, 35]];
    let mut b = a.clone();
    let first = gradient_descent(&mut a, &small_depths(), &cfg);
    let second = gradient_descent(&mut b, &small_depths(), &cfg);
    assert_eq!(first, second);
    assert_eq!(a, b);
}

#[test]
fn shift_plane_moves_one_plane_of_every_event() {
    let mut data = vec![vec![0, 3, 4], vec![10, 20, 35]];
    shift_plane(&mut data, 2, -5);
    assert_eq!(data, vec![vec![0, 3, -1], vec![10, 20, 30]]);
    shift_plane(&mut data, 0, 7);
    assert_eq!(data, vec![vec![7, 3, -1], vec![17, 20, 30]]);
    shift_plane(&mut data, 0, 0);
    assert_eq!(data, vec![vec![7, 3, -1], vec![17, 20, 30]]);
}

#[test]
fn reading_without_a_cost_does_not_stop_the_descent() {
    // The samples coincide, so the set has no cost where it stands; both
    // probes can be fitted and cost the same.
    let mut data = vec![vec![5, 5, 5]];
    let run = gradient_descent(&mut data, &small_depths(), &settings(1, 1, 0, 50, 1));
    assert_eq!(
        run,
        Descent {
            shift: 0,
            iterations: 1,
            ending: Ending::Converged,
            log: vec![Observation {
                iteration: 1,
                gradient: 0,
                shift: 0,
                cost: Err(FitError::Degenerate),
            }],
        }
    );
}
