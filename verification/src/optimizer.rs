//! Gradient descent on the displacement of one plane.

use vstd::prelude::*;
use crate::error::FitError;
use crate::eventset::{
    grid,
    lemma_grid_rows,
    lemma_shifted_twice,
    lemma_shifted_zero,
    shift_plane,
    shifted,
    shifted_row,
    three_planes,
};
use crate::fit::{chi2_fit, chi2_spec};
use crate::geometry::{ints, spread_limit, COORD_LIMIT};
use crate::gradient::{
    div_toward_zero,
    gradient,
    gradient_spec,
    lemma_gradient_bound,
    lemma_gradient_needs_range,
    toward_zero,
};

verus! {

/// Largest step that a single iteration may apply: a larger one would carry
/// every coordinate beyond the accepted magnitude.
pub const STEP_LIMIT: i64 = 2_199_023_255_552;

/// The tunable constants of a descent.
#[derive(Debug, Clone, Copy, PartialEq, Eq)]
pub struct Settings {
    /// Numerator of the learning rate.
    pub rate_num: u32,
    /// Denominator of the learning rate.
    pub rate_den: u32,
    /// Largest magnitude of the gradient that counts as converged. A step
    /// of less than one tick rounds to nothing, so a gradient smaller than
    /// the inverse of the learning rate moves nothing: with a tolerance
    /// below that, a descent can come to rest short of it and wait for the
    /// cap.
    pub tolerance: u64,
    /// Value of the iteration counter at which the descent gives up.
    pub max_iterations: u64,
    /// Half width of the central difference, in ticks.
    pub epsilon: u32,
    /// Index of the plane that is displaced.
    pub target: usize,
    /// A reading is taken whenever the iteration counter is a multiple of
    /// this; zero takes none.
    pub report_every: u64,
}

impl Settings {
    /// The settings can drive a descent: the learning rate has a divisor,
    /// the perturbation a width, and the target names a plane.
    pub open spec fn valid(&self) -> bool {
        self.rate_den > 0 && self.epsilon > 0 && self.target < 3
    }

    /// Tells whether the settings can drive a descent.
    pub fn is_valid(&self) -> (res: bool)
        ensures
            res == self.valid(),
    {
        self.rate_den > 0 && self.epsilon > 0 && self.target < 3
    }

    /// The standard settings for positions measured in ticks of which
    /// `ticks_per_unit` make one length unit: a learning rate of one in
    /// twenty thousand, a tolerance of a thousandth and a perturbation of a
    /// millionth of a unit, a cap of four thousand iterations, the middle
    /// plane as target and a reading every tenth iteration. There are none
    /// where a millionth of a unit is less than one tick or more than the
    /// perturbation can hold.
    pub fn standard(ticks_per_unit: u64) -> (res: Option<Settings>)
        ensures
            res is Some <==> 1_000_000 <= ticks_per_unit <= 0xffff_ffff * 1_000_000 + 999_999,
            res matches Some(s) ==> s == (Settings {
                rate_num: 1,
                rate_den: 20_000,
                tolerance: ticks_per_unit / 1_000,
                max_iterations: 4_000,
                epsilon: (ticks_per_unit / 1_000_000) as u32,
                target: 1,
                report_every: 10,
            }),
    {
        let width: u64 = ticks_per_unit / 1_000_000;
        if width == 0 || width > 0xffff_ffff {
            None
        } else {
            Some(
                Settings {
                    rate_num: 1,
                    rate_den: 20_000,
                    tolerance: ticks_per_unit / 1_000,
                    max_iterations: 4_000,
                    epsilon: width as u32,
                    target: 1,
                    report_every: 10,
                },
            )
        }
    }
}

/// How a descent ended.
#[derive(Debug, Clone, Copy, PartialEq, Eq)]
pub enum Ending {
    /// The gradient came within the tolerance.
    Converged,
    /// The iteration counter reached its cap first.
    Capped,
    /// A gradient could not be computed, or a step was too large to apply.
    Failed(FitError),
}

/// A progress reading taken during a descent.
#[derive(Debug, Clone, Copy, PartialEq, Eq)]
pub struct Observation {
    /// Value of the iteration counter.
    pub iteration: u64,
    /// Gradient at the current position.
    pub gradient: i128,
    /// Displacement applied so far.
    pub shift: i64,
    /// Cost at the current position, if it has one.
    pub cost: Result<u128, FitError>,
}

/// Result of a descent.
#[derive(Debug, PartialEq, Eq)]
pub struct Descent {
    /// Displacement applied to the target plane, in ticks.
    pub shift: i64,
    /// Value of the iteration counter when the descent ended. The counter
    /// starts at one and advances with every step applied.
    pub iterations: u64,
    /// Whether the descent converged, was capped or failed.
    pub ending: Ending,
    /// The readings taken, oldest first.
    pub log: Vec<Observation>,
}

/// A progress reading as mathematical values.
pub struct Reading {
    /// Value of the iteration counter.
    pub iteration: int,
    /// Gradient at the current position.
    pub gradient: int,
    /// Displacement applied so far.
    pub shift: int,
    /// Cost at the current position, if it has one.
    pub cost: Result<int, FitError>,
}

/// A descent as mathematical values.
pub struct Run {
    /// Displacement applied to the target plane.
    pub shift: int,
    /// Value of the iteration counter when the descent ended.
    pub iterations: int,
    /// Whether the descent converged, was capped or failed.
    pub ending: Ending,
    /// The readings taken, oldest first.
    pub log: Seq<Reading>,
}

impl View for Observation {
    type V = Reading;

    open spec fn view(&self) -> Reading {
        Reading {
            iteration: self.iteration as int,
            gradient: self.gradient as int,
            shift: self.shift as int,
            cost: match self.cost {
                Ok(c) => Ok(c as int),
                Err(e) => Err(e),
            },
        }
    }
}

/// The readings of a log as mathematical values.
pub open spec fn readings(log: Seq<Observation>) -> Seq<Reading> {
    Seq::new(log.len(), |i: int| log[i]@)
}

impl View for Descent {
    type V = Run;

    open spec fn view(&self) -> Run {
        Run {
            shift: self.shift as int,
            iterations: self.iterations as int,
            ending: self.ending,
            log: readings(self.log@),
        }
    }
}

/// The magnitude of an integer.
pub open spec fn magnitude(v: int) -> int {
    if v < 0 {
        -v
    } else {
        v
    }
}

/// The gradient exists and its magnitude does not exceed the tolerance.
pub open spec fn within_tolerance(g: Result<int, FitError>, cfg: Settings) -> bool {
    g is Ok && magnitude(g->Ok_0) <= cfg.tolerance
}

/// The step that answers the gradient `g`: the learning rate times the
/// gradient, rounded toward zero. The step is subtracted from the position.
pub open spec fn step_of(cfg: Settings, g: int) -> int {
    toward_zero(cfg.rate_num * g, cfg.rate_den as int)
}

/// A reading is due when the counter is a multiple of the reporting period.
pub open spec fn reading_due(cfg: Settings, counter: int) -> bool {
    cfg.report_every > 0 && counter % (cfg.report_every as int) == 0
}

/// The log after the iteration numbered `counter`, at which the gradient was
/// `g` and the displacement so far `shift`.
pub open spec fn logged(
    rows: Seq<Seq<int>>,
    z: Seq<int>,
    cfg: Settings,
    counter: int,
    shift: int,
    g: int,
    log: Seq<Reading>,
) -> Seq<Reading> {
    if reading_due(cfg, counter) {
        log.push(Reading { iteration: counter, gradient: g, shift, cost: chi2_spec(rows, z) })
    } else {
        log
    }
}

/// The descent from the iteration numbered `counter` on, with the event set
/// at `rows` after a displacement of `shift` so far. Each iteration evaluates
/// the gradient; it ends the descent if the gradient fails, if it is within
/// the tolerance, or if the counter has reached its cap, in this order;
/// otherwise it subtracts the step from the target plane and from the
/// displacement and advances the counter.
pub open spec fn descend(
    rows: Seq<Seq<int>>,
    z: Seq<int>,
    cfg: Settings,
    counter: int,
    shift: int,
    log: Seq<Reading>,
) -> Run
    decreases cfg.max_iterations - counter,
{
    match gradient_spec(rows, z, cfg.target as int, cfg.epsilon as int) {
        Err(e) => Run { shift, iterations: counter, ending: Ending::Failed(e), log },
        Ok(g) => {
            let log = logged(rows, z, cfg, counter, shift, g, log);
            if magnitude(g) <= cfg.tolerance {
                Run { shift, iterations: counter, ending: Ending::Converged, log }
            } else if counter >= cfg.max_iterations {
                Run { shift, iterations: counter, ending: Ending::Capped, log }
            } else {
                let step = step_of(cfg, g);
                if magnitude(step) > STEP_LIMIT {
                    Run {
                        shift,
                        iterations: counter,
                        ending: Ending::Failed(FitError::OutOfRange),
                        log,
                    }
                } else {
                    descend(
                        shifted(rows, cfg.target as int, -step),
                        z,
                        cfg,
                        counter + 1,
                        shift - step,
                        log,
                    )
                }
            }
        },
    }
}

/// The whole descent on an event set: it starts with the counter at one and
/// no displacement. A learning rate with a zero denominator fails it at
/// once.
pub open spec fn descent_spec(rows: Seq<Seq<int>>, z: Seq<int>, cfg: Settings) -> Run {
    if cfg.rate_den == 0 {
        Run {
            shift: 0,
            iterations: 1,
            ending: Ending::Failed(FitError::InvalidSettings),
            log: Seq::empty(),
        }
    } else {
        descend(rows, z, cfg, 1, 0, Seq::empty())
    }
}

/// Runs the descent on one axis of an event set: it displaces plane
/// `cfg.target` step by step against the gradient of the cost until the
/// gradient is within the tolerance or the iteration counter reaches its
/// cap. The event set is left displaced by the shift that is returned.
pub fn gradient_descent(data: &mut Vec<Vec<i64>>, z: &Vec<i64>, cfg: &Settings) -> (res: Descent)
    requires
        three_planes(old(data)@),
        z.len() == 3,
    ensures
        res@ == descent_spec(grid(old(data)@), ints(z@), *cfg),
        three_planes(final(data)@),
        final(data)@.len() == old(data)@.len(),
        cfg.target < 3 ==> grid(final(data)@) == shifted(
            grid(old(data)@),
            cfg.target as int,
            res.shift as int,
        ),
        cfg.target >= 3 ==> grid(final(data)@) == grid(old(data)@),
        1 <= res.iterations,
        cfg.max_iterations >= 1 ==> res.iterations <= cfg.max_iterations,
        res.ending == Ending::Converged ==> within_tolerance(
            gradient_spec(grid(final(data)@), ints(z@), cfg.target as int, cfg.epsilon as int),
            *cfg,
        ),
        res.ending == Ending::Capped ==> res.iterations >= cfg.max_iterations && !within_tolerance(
            gradient_spec(grid(final(data)@), ints(z@), cfg.target as int, cfg.epsilon as int),
            *cfg,
        ),
{
    let mut log: Vec<Observation> = Vec::new();
    let mut shift: i64 = 0;
    let mut counter: u64 = 1;
    let ghost rows0 = grid(data@);
    let ghost zs = ints(z@);
    proof {
        assert(readings(log@) =~= Seq::<Reading>::empty());
        lemma_grid_rows(data@);
        if cfg.target < 3 {
            lemma_shifted_zero(rows0, cfg.target as int);
        }
    }
    if cfg.rate_den == 0 {
        return Descent {
            shift,
            iterations: counter,
            ending: Ending::Failed(FitError::InvalidSettings),
            log,
        };
    }
    loop
        invariant
            three_planes(data@),
            z.len() == 3,
            zs == ints(z@),
            rows0 == grid(old(data)@),
            data@.len() == old(data)@.len(),
            cfg.rate_den > 0,
            counter >= 1,
            descent_spec(rows0, zs, *cfg) == descend(
                grid(data@),
                zs,
                *cfg,
                counter as int,
                shift as int,
                readings(log@),
            ),
            cfg.target < 3 ==> grid(data@) == shifted(rows0, cfg.target as int, shift as int),
            cfg.target >= 3 ==> grid(data@) == rows0,
            rows0.len() == data@.len(),
            forall|i: int| 0 <= i < rows0.len() ==> (#[trigger] rows0[i]).len() == 3,
            counter > 1 ==> rows0.len() > 0 && cfg.target < 3,
            counter > 1 ==> -COORD_LIMIT <= rows0[0][cfg.target as int] <= COORD_LIMIT,
            counter == 1 ==> shift == 0,
            cfg.max_iterations >= 1 ==> counter <= cfg.max_iterations,
        decreases cfg.max_iterations - counter,
    {
        let ghost rows = grid(data@);
        let g: i128 = match gradient(data, z, cfg.target, cfg.epsilon) {
            Ok(g) => g,
            Err(e) => {
                return Descent { shift, iterations: counter, ending: Ending::Failed(e), log };
            },
        };
        proof {
            lemma_grid_rows(data@);
            lemma_gradient_bound(rows, zs, cfg.target as int, cfg.epsilon as int);
            lemma_gradient_needs_range(rows, zs, cfg.target as int, cfg.epsilon as int);
            assert(spread_limit() == 0xc_0000_0000_0000_0000_0000) by (nonlinear_arith);
            assert(rows[0] == shifted_row(rows0[0], cfg.target as int, shift as int));
            assert(rows[0][cfg.target as int] == rows0[0][cfg.target as int] + shift);
        }
        if cfg.report_every > 0 && counter % cfg.report_every == 0 {
            let cost = chi2_fit(data, z);
            let ghost before = readings(log@);
            log.push(Observation { iteration: counter, gradient: g, shift, cost });
            assert(readings(log@) =~= before.push(
                Reading {
                    iteration: counter as int,
                    gradient: g as int,
                    shift: shift as int,
                    cost: chi2_spec(rows, zs),
                },
            ));
        }
        let size: u128 = if g < 0 {
            (-g) as u128
        } else {
            g as u128
        };
        if size <= cfg.tolerance as u128 {
            return Descent { shift, iterations: counter, ending: Ending::Converged, log };
        }
        if counter >= cfg.max_iterations {
            return Descent { shift, iterations: counter, ending: Ending::Capped, log };
        }
        assert(-0xc_0000_0000_0000_0000_0000 * 0xffff_ffff <= cfg.rate_num * g
            <= 0xc_0000_0000_0000_0000_0000 * 0xffff_ffff) by (nonlinear_arith)
            requires
                -0xc_0000_0000_0000_0000_0000 <= g <= 0xc_0000_0000_0000_0000_0000,
                0 <= cfg.rate_num <= 0xffff_ffff,
        ;
        let step: i128 = div_toward_zero((cfg.rate_num as i128) * g, cfg.rate_den as u128);
        if step > STEP_LIMIT as i128 || step < -(STEP_LIMIT as i128) {
            return Descent {
                shift,
                iterations: counter,
                ending: Ending::Failed(FitError::OutOfRange),
                log,
            };
        }
        let back: i64 = -(step as i64);
        proof {
            lemma_shifted_twice(rows0, cfg.target as int, shift as int, back as int);
            assert forall|i: int| 0 <= i < data@.len() implies i64::MIN <= (
            #[trigger] data@[i])@[cfg.target as int] + back <= i64::MAX by {
                assert(rows[i] == ints(data@[i]@));
                assert(rows[i][cfg.target as int] == data@[i]@[cfg.target as int]);
            }
        }
        shift_plane(data, cfg.target, back);
        shift = shift + back;
        counter = counter + 1;
    }
}

/// A descent that starts with its counter between one and the cap ends with
/// the counter no further than the cap.
pub proof fn lemma_counter_within_cap(
    rows: Seq<Seq<int>>,
    z: Seq<int>,
    cfg: Settings,
    counter: int,
    shift: int,
    log: Seq<Reading>,
)
    requires
        1 <= counter <= cfg.max_iterations,
    ensures
        counter <= descend(rows, z, cfg, counter, shift, log).iterations <= cfg.max_iterations,
    decreases cfg.max_iterations - counter,
{
    match gradient_spec(rows, z, cfg.target as int, cfg.epsilon as int) {
        Err(_) => {},
        Ok(g) => {
            let step = step_of(cfg, g);
            if magnitude(g) > cfg.tolerance && counter < cfg.max_iterations && magnitude(step)
                <= STEP_LIMIT {
                lemma_counter_within_cap(
                    shifted(rows, cfg.target as int, -step),
                    z,
                    cfg,
                    counter + 1,
                    shift - step,
                    logged(rows, z, cfg, counter, shift, g, log),
                );
            }
        },
    }
}

/// Every descent with a cap of at least one ends, and its iteration count
/// lies between one and the cap.
pub proof fn lemma_iterations_within_cap(rows: Seq<Seq<int>>, z: Seq<int>, cfg: Settings)
    requires
        cfg.max_iterations >= 1,
    ensures
        1 <= descent_spec(rows, z, cfg).iterations <= cfg.max_iterations,
{
    if cfg.rate_den != 0 {
        lemma_counter_within_cap(rows, z, cfg, 1, 0, Seq::empty());
    }
}

/// What the ending of a descent says of the position it stopped at, that is
/// of the event set displaced by what the descent added to the shift: a
/// converged descent stopped where the gradient is within the tolerance, a
/// capped one where it is not and with its counter at the cap or beyond, and
/// a failed one where the gradient fails or asks for too large a step.
pub proof fn lemma_ending(
    rows: Seq<Seq<int>>,
    z: Seq<int>,
    cfg: Settings,
    counter: int,
    shift: int,
    log: Seq<Reading>,
)
    requires
        cfg.target < 3,
        forall|i: int| 0 <= i < rows.len() ==> (#[trigger] rows[i]).len() == 3,
    ensures
        ({
            let run = descend(rows, z, cfg, counter, shift, log);
            let last = shifted(rows, cfg.target as int, run.shift - shift);
            let g = gradient_spec(last, z, cfg.target as int, cfg.epsilon as int);
            &&& run.ending == Ending::Converged ==> g is Ok && magnitude(g->Ok_0) <= cfg.tolerance
            &&& run.ending == Ending::Capped ==> g is Ok && magnitude(g->Ok_0) > cfg.tolerance
                && run.iterations >= cfg.max_iterations
            &&& run.ending matches Ending::Failed(e) ==> g == Err::<int, FitError>(e) || (g is Ok
                && e == FitError::OutOfRange && magnitude(step_of(cfg, g->Ok_0)) > STEP_LIMIT)
        }),
    decreases cfg.max_iterations - counter,
{
    let t = cfg.target as int;
    lemma_shifted_zero(rows, t);
    match gradient_spec(rows, z, t, cfg.epsilon as int) {
        Err(_) => {},
        Ok(g) => {
            let step = step_of(cfg, g);
            if magnitude(g) > cfg.tolerance && counter < cfg.max_iterations && magnitude(step)
                <= STEP_LIMIT {
                let next = shifted(rows, t, -step);
                let later = logged(rows, z, cfg, counter, shift, g, log);
                lemma_ending(next, z, cfg, counter + 1, shift - step, later);
                let run = descend(next, z, cfg, counter + 1, shift - step, later);
                lemma_shifted_twice(rows, t, -step, run.shift - (shift - step));
            }
        },
    }
}

/// Settings that cannot drive a descent fail it before anything moves.
pub proof fn lemma_invalid_settings_fail(rows: Seq<Seq<int>>, z: Seq<int>, cfg: Settings)
    requires
        !cfg.valid(),
    ensures
        descent_spec(rows, z, cfg) == (Run {
            shift: 0,
            iterations: 1,
            ending: Ending::Failed(FitError::InvalidSettings),
            log: Seq::empty(),
        }),
{
}

} // verus!
