use gem_align::error::FitError;
use gem_align::geometry::COORD_LIMIT;
use gem_align::line::{fit_line, Line};

#[test]
fn line_through_points_on_a_line() {
    // z = 2 x + 1: slope 12 / 6, intercept 18 / (3 * 6)
    let l = fit_line(&vec![0, 1, 2], &vec![1, 3, 5]).unwrap();
    assert_eq!(l, Line { rise: 12, lift: 18, spread: 6 });
    assert_eq!(l.rise / l.spread, 2);
    assert_eq!(l.lift / (3 * l.spread), 1);
}

#[test]
fn line_through_scattered_points() {
    let l = fit_line(&vec![0, 3, 4], &vec![0, 180, 700]).unwrap();
    assert_eq!(l, Line { rise: 3860, lift: -4140, spread: 26 });
}

#[test]
fn residuals_of_the_fitted_line_obey_the_normal_equations() {
    let x: Vec<i64> = vec![0, 3, 4];
    let z: Vec<i64> = vec![0, 180, 700];
    let l = fit_line(&x, &z).unwrap();
    let r: Vec<i128> = (0..3)
        .map(|i| 3 * l.spread * (z[i] as i128) - 3 * l.rise * (x[i] as i128) - l.lift)
        .collect();
    assert_eq!(r[0] + r[1] + r[2], 0);
    assert_eq!(r[0] * (x[0] as i128) + r[1] * (x[1] as i128) + r[2] * (x[2] as i128), 0);
    // sum of squares = 9 * spread * cross^2
    assert_eq!(r[0] * r[0] + r[1] * r[1] + r[2] * r[2], 9 * 26 * 1380 * 1380);
}

#[test]
fn no_line_where_the_samples_coincide() {
    assert_eq!(fit_line(&vec![4, 4, 4], &vec![0, 180, 700]), Err(FitError::Degenerate));
}

#[test]
fn no_line_beyond_the_limit() {
    assert_eq!(
        fit_line(&vec![0, 1, COORD_LIMIT + 1], &vec![0, 180, 700]),
        Err(FitError::OutOfRange)
    );
    assert_eq!(
        fit_line(&vec![0, 1, 2], &vec![-COORD_LIMIT - 1, 180, 700]),
        Err(FitError::OutOfRange)
    );
}

#[test]
fn line_at_the_limit() {
    let l = COORD_LIMIT as i128;
    let got = fit_line(&vec![-COORD_LIMIT, COORD_LIMIT, COORD_LIMIT], &vec![
        COORD_LIMIT,
        COORD_LIMIT,
        COORD_LIMIT,
    ])
    .unwrap();
    // spread = 8 L^2, no covariation, lift = spread * 3 L
    assert_eq!(got, Line { rise: 0, lift: 24 * l * l * l, spread: 8 * l * l });
}

#[test]
fn no_line_beats_the_fitted_line() {
    let x: Vec<i128> = vec![0, 3, 4];
    let z: Vec<i128> = vec![0, 180, 700];
    let spread: i128 = 26;
    let cross: i128 = 1380;
    let mut least: Option<(i128, i128)> = None;
    for d in 1..4i128 {
        for p in -400..400i128 {
            for q in -400..400i128 {
                let sum: i128 = (0..3).map(|i| (d * z[i] - p * x[i] - q).pow(2)).sum();
                assert!(spread * sum >= d * d * cross * cross);
                // keep the smallest sum of squares over d squared seen so far
                let better = match least {
                    None => true,
                    Some((s, e)) => sum * e * e < s * d * d,
                };
                if better {
                    least = Some((sum, d));
                }
            }
        }
    }
    // the fitted line has slope 3860 / 26 and intercept -4140 / 78; the
    // best line on this grid comes within a tenth of its 73246.15
    let (sum, d) = least.unwrap();
    assert!(sum / (d * d) >= 73246);
    assert!(sum / (d * d) <= 73246 + 7324);
}
