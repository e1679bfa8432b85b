use gem_align::align::{align_axis, align_gems};
use gem_align::error::FitError;
use gem_align::optimizer::{gradient_descent, Ending, Settings};
use gem_align::residuals::{collect_errors, Residual};

const T: i64 = 900_000_000;

fn depths() -> Vec<i64> {
    vec![0, 180 * T, 700 * T]
}

fn horizontal() -> Vec<Vec<i64>> {
    vec![
        vec![0, 2 * T + 3 * T / 2, 7_000_000_000],
        vec![5 * T, T + 3 * T / 2, -9_500_000_000],
        vec![-3 * T, 3 * T / 2, 7_800_000_000],
    ]
}

fn vertical() -> Vec<Vec<i64>> {
    vec![
        vec![1_000_000_000, 5_100_000_000, 0],
        vec![-1_357_142_858, 4_800_000_000, 4_500_000_000],
        vec![1_114_285_714, 4_500_000_000, -2_700_000_000],
    ]
}

#[test]
fn both_axes_are_aligned_and_diagnosed() {
    let cfg = Settings::standard(T as u64).unwrap();
    let out = align_gems(horizontal(), vertical(), &depths(), &cfg);

    assert_eq!(out.x.descent.ending, Ending::Converged);
    assert_eq!(out.x.descent.shift, -1_349_999_857);
    assert_eq!(out.x.descent.iterations, 49);
    assert_eq!(
        out.x.samples,
        vec![
            vec![0, 1_800_000_143, 7_000_000_000],
            vec![4_500_000_000, 900_000_143, -9_500_000_000],
            vec![-2_700_000_000, 143, 7_800_000_000],
        ]
    );

    assert_eq!(out.y.descent.ending, Ending::Capped);
    assert_eq!(out.y.descent.shift, -4_586_213_814);
    assert_eq!(out.y.descent.iterations, 4_000);
    assert_eq!(
        out.y.samples,
        vec![
            vec![1_000_000_000, 513_786_186, 0],
            vec![-1_357_142_858, 213_786_186, 4_500_000_000],
            vec![1_114_285_714, -86_213_814, -2_700_000_000],
        ]
    );

    let y_errors = out.y_errors.unwrap();
    assert_eq!(
        y_errors[0],
        vec![
            Residual { num: -144_314_702_820_000_000_000, den: 468_000_000_000 },
            Residual { num: 144_314_702_820_000_000_000, den: 630_000_000_000 },
            Residual { num: -144_314_702_820_000_000_000, den: 162_000_000_000 },
        ]
    );
    assert_eq!(y_errors[1][0], Residual { num: 40_828_154_724_000_000_000, den: 468_000_000_000 });
    assert_eq!(y_errors[2][1], Residual { num: 138_400_416_972_000_000_000, den: 630_000_000_000 });
    assert_eq!(out.x_errors, collect_errors(&out.x.samples, &depths()));
}

#[test]
fn each_axis_goes_as_it_would_alone() {
    let cfg = Settings::standard(T as u64).unwrap();
    let out = align_gems(horizontal(), vertical(), &depths(), &cfg);
    let mut x = horizontal();
    let mut y = vertical();
    let alone_x = gradient_descent(&mut x, &depths(), &cfg);
    let alone_y = gradient_descent(&mut y, &depths(), &cfg);
    assert_eq!(out.x.descent, alone_x);
    assert_eq!(out.y.descent, alone_y);
    assert_eq!(out.x.samples, x);
    assert_eq!(out.y.samples, y);
    // and whatever stands on the other axis
    let swapped = align_gems(vertical(), horizontal(), &depths(), &cfg);
    assert_eq!(swapped.x.descent, alone_y);
    assert_eq!(swapped.y.descent, alone_x);
    assert_eq!(swapped.x_errors, out.y_errors);
    assert_eq!(swapped.y_errors, out.x_errors);
}

#[test]
fn one_axis_may_fail_while_the_other_converges() {
    let cfg = Settings::standard(T as u64).unwrap();
    let none: Vec<Vec<i64>> = Vec::new();
    let out = align_gems(horizontal(), none, &depths(), &cfg);
    assert_eq!(out.x.descent.ending, Ending::Converged);
    assert_eq!(out.y.descent.ending, Ending::Failed(FitError::NoEvents));
    assert_eq!(out.y.samples, Vec::<Vec<i64>>::new());
    assert_eq!(out.y_errors, Ok(Vec::new()));
}

#[test]
fn diagnostics_fail_on_coinciding_planes() {
    let cfg = Settings::standard(T as u64).unwrap();
    let z = vec![0, 180 * T, 180 * T];
    let out = align_gems(horizontal(), vertical(), &z, &cfg);
    assert_eq!(out.x_errors, Err(FitError::Degenerate));
    assert_eq!(out.y_errors, Err(FitError::Degenerate));
}

#[test]
fn one_axis_alone() {
    let cfg = Settings::standard(T as u64).unwrap();
    let axis = align_axis(horizontal(), &depths(), &cfg);
    assert_eq!(axis.descent.shift, -1_349_999_857);
    assert_eq!(axis.samples[2], vec![-2_700_000_000, 143, 7_800_000_000]);
}
