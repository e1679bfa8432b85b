use gem_align::error::FitError;
use gem_align::fit::chi2_fit;
use gem_align::geometry::COORD_LIMIT;
use gem_align::gradient::gradient;

fn depths() -> Vec<i64> {
    vec![0, 180, 700]
}

fn displaced(data: &Vec<Vec<i64>>, target: usize, delta: i64) -> Vec<Vec<i64>> {
    let mut out = data.clone();
    for row in out.iter_mut() {
        row[target] += delta;
    }
    out
}

#[test]
fn gradient_is_the_central_difference() {
    let data = vec![vec![0, 3, 4]];
    let up = chi2_fit(&displaced(&data, 1, 1), &depths()).unwrap();
    let down = chi2_fit(&displaced(&data, 1, -1), &depths()).unwrap();
    assert_eq!(up, 135200);
    assert_eq!(down, 19266);
    // (135200 - 19266) / 2
    assert_eq!(gradient(&data, &depths(), 1, 1), Ok(57967));
}

#[test]
fn gradient_of_each_plane() {
    let data = vec![vec![0, 3, 4], vec![10, 20, 35]];
    assert_eq!(gradient(&data, &depths(), 0, 1), Ok(-9401));
    assert_eq!(gradient(&data, &depths(), 1, 1), Ok(30859));
    assert_eq!(gradient(&data, &depths(), 2, 1), Ok(-25082));
    assert_eq!(gradient(&data, &depths(), 0, 5), Ok(6016));
    assert_eq!(gradient(&data, &depths(), 1, 5), Ok(10237));
    assert_eq!(gradient(&data, &depths(), 2, 5), Ok(-10777));
}

#[test]
fn gradient_rounds_toward_zero() {
    // the probes cost 62 and 61: the difference of one over two is nothing
    let data = vec![vec![0, 18, 70]];
    assert_eq!(chi2_fit(&displaced(&data, 1, 1), &depths()), Ok(62));
    assert_eq!(chi2_fit(&displaced(&data, 1, -1), &depths()), Ok(61));
    assert_eq!(gradient(&data, &depths(), 1, 1), Ok(0));
    // a negative difference is rounded up, not down
    assert_eq!(gradient(&vec![vec![0, 10, 70]], &depths(), 1, 1), Ok(-868));
}

#[test]
fn sign_of_the_gradient_points_down_the_cost() {
    // The samples lie on a line when the middle one is 18. Above it the
    // cost rises with the sample, below it the cost falls.
    let above = vec![vec![0, 30, 70]];
    let below = vec![vec![0, 10, 70]];
    let g_above = gradient(&above, &depths(), 1, 1).unwrap();
    let g_below = gradient(&below, &depths(), 1, 1).unwrap();
    assert_eq!(g_above, 1614);
    assert_eq!(g_below, -868);
    for eps in [2u32, 3, 4] {
        let a = gradient(&above, &depths(), 1, eps).unwrap();
        let b = gradient(&below, &depths(), 1, eps).unwrap();
        assert!(a > 0);
        assert!(b < 0);
        // a step against the gradient lowers the cost
        let here = chi2_fit(&above, &depths()).unwrap();
        let there = chi2_fit(&displaced(&above, 1, -(eps as i64)), &depths()).unwrap();
        assert!(there < here);
        let here = chi2_fit(&below, &depths()).unwrap();
        let there = chi2_fit(&displaced(&below, 1, eps as i64), &depths()).unwrap();
        assert!(there < here);
    }
}

#[test]
fn gradient_leaves_the_events_alone() {
    let data = vec![vec![0, 3, 4], vec![10, 20, 35]];
    let before = data.clone();
    let first = gradient(&data, &depths(), 1, 1);
    let second = gradient(&data, &depths(), 1, 1);
    assert_eq!(data, before);
    assert_eq!(first, second);
}

#[test]
fn gradient_needs_a_plane_and_a_width() {
    let data = vec![vec![0, 3, 4]];
    assert_eq!(gradient(&data, &depths(), 3, 1), Err(FitError::InvalidSettings));
    assert_eq!(gradient(&data, &depths(), 1, 0), Err(FitError::InvalidSettings));
    assert_eq!(gradient(&data, &depths(), usize::MAX, 0), Err(FitError::InvalidSettings));
    let none: Vec<Vec<i64>> = Vec::new();
    assert_eq!(gradient(&none, &depths(), 7, 1), Err(FitError::InvalidSettings));
}

#[test]
fn gradient_of_nothing() {
    let none: Vec<Vec<i64>> = Vec::new();
    assert_eq!(gradient(&none, &depths(), 1, 1), Err(FitError::NoEvents));
}

#[test]
fn a_probe_that_cannot_be_fitted_fails_the_gradient() {
    // the backward probe makes the samples coincide
    assert_eq!(gradient(&vec![vec![5, 6, 5]], &depths(), 1, 1), Err(FitError::Degenerate));
    // the forward probe does
    assert_eq!(gradient(&vec![vec![5, 4, 5]], &depths(), 1, 1), Err(FitError::Degenerate));
    // neither does
    assert_eq!(gradient(&vec![vec![5, 5, 5]], &depths(), 1, 1), Ok(0));
}

#[test]
fn a_probe_beyond_the_limit_fails_the_gradient() {
    assert_eq!(
        gradient(&vec![vec![0, COORD_LIMIT, 5]], &depths(), 1, 1),
        Err(FitError::OutOfRange)
    );
    assert_eq!(
        gradient(&vec![vec![0, -COORD_LIMIT, 5]], &depths(), 1, 1),
        Err(FitError::OutOfRange)
    );
    assert_eq!(gradient(&vec![vec![0, COORD_LIMIT - 1, 5]], &depths(), 1, 1), Ok(0));
    assert_eq!(
        gradient(&vec![vec![0, i64::MAX, 5]], &depths(), 1, u32::MAX),
        Err(FitError::OutOfRange)
    );
    assert_eq!(
        gradient(&vec![vec![0, i64::MIN, 5]], &depths(), 1, u32::MAX),
        Err(FitError::OutOfRange)
    );
}
