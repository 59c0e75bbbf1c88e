//! Ordinary least squares over integer samples, carried out exactly.
//! The fitted slope and intercept are returned as exact integer
//! rationals over the common denominator `n·Σx² − (Σx)²`; conversion to
//! floating point is left to callers, so the fit itself loses no
//! precision. The closed forms are the classical ones:
//! slope = (n·Σxy − Σx·Σy) / (n·Σx² − (Σx)²) and
//! intercept = (Σy·Σx² − Σx·Σxy) / (n·Σx² − (Σx)²), which equals
//! ȳ − slope·x̄.

use vstd::prelude::*;
use crate::error::AnalysisError;

verus! {

/// The sum of a sequence of integers.
pub open spec fn seq_sum(s: Seq<int>) -> int
    decreases s.len(),
{
    if s.len() == 0 {
        0
    } else {
        seq_sum(s.drop_last()) + s.last()
    }
}

/// The sum of the pointwise products of two equally long sequences.
pub open spec fn seq_prod_sum(x: Seq<int>, y: Seq<int>) -> int
    decreases x.len(),
{
    if x.len() == 0 || y.len() == 0 {
        0
    } else {
        seq_prod_sum(x.drop_last(), y.drop_last()) + x.last() * y.last()
    }
}

/// The numerator of the fitted slope.
pub open spec fn slope_num(x: Seq<int>, y: Seq<int>) -> int {
    x.len() * seq_prod_sum(x, y) - seq_sum(x) * seq_sum(y)
}

/// The shared denominator of the fit: `n` times the variance sum of `x`.
pub open spec fn slope_den(x: Seq<int>) -> int {
    x.len() * seq_prod_sum(x, x) - seq_sum(x) * seq_sum(x)
}

/// The numerator of the fitted intercept.
pub open spec fn intercept_num(x: Seq<int>, y: Seq<int>) -> int {
    seq_sum(y) * seq_prod_sum(x, x) - seq_sum(x) * seq_prod_sum(x, y)
}

/// The integer values of a sequence of 64-bit samples.
pub open spec fn ints64(s: Seq<i64>) -> Seq<int> {
    s.map_values(|v: i64| v as int)
}

/// The sum of squared deviations from any center is nonnegative:
/// Σx² − 2c·Σx + n·c² ≥ 0.
proof fn lemma_centered_nonneg(xs: Seq<int>, c: int)
    ensures
        seq_prod_sum(xs, xs) - 2 * c * seq_sum(xs) + xs.len() * c * c >= 0,
    decreases xs.len(),
{
    if xs.len() > 0 {
        lemma_centered_nonneg(xs.drop_last(), c);
        let x = xs.last();
        let ss = seq_prod_sum(xs.drop_last(), xs.drop_last());
        let s = seq_sum(xs.drop_last());
        let k = xs.drop_last().len() as int;
        assert(seq_prod_sum(xs, xs) - 2 * c * seq_sum(xs) + xs.len() * c * c >= 0) by (nonlinear_arith)
            requires
                ss - 2 * c * s + k * c * c >= 0,
                seq_prod_sum(xs, xs) == ss + x * x,
                seq_sum(xs) == s + x,
                xs.len() == k + 1,
        {
        }
    }
}

/// Cauchy–Schwarz for the fit denominator: `n·Σx² − (Σx)²` is never
/// negative.
pub proof fn lemma_den_nonneg(xs: Seq<int>)
    ensures
        slope_den(xs) >= 0,
    decreases xs.len(),
{
    if xs.len() > 0 {
        lemma_den_nonneg(xs.drop_last());
        let x = xs.last();
        let ss = seq_prod_sum(xs.drop_last(), xs.drop_last());
        let s = seq_sum(xs.drop_last());
        let k = xs.drop_last().len() as int;
        lemma_centered_nonneg(xs.drop_last(), x);
        assert((k + 1) * (ss + x * x) - (s + x) * (s + x) >= 0) by (nonlinear_arith)
            requires
                k * ss - s * s >= 0,
                ss - 2 * x * s + k * x * x >= 0,
        {
        }
        assert(slope_den(xs) >= 0) by (nonlinear_arith)
            requires
                (k + 1) * (ss + x * x) - (s + x) * (s + x) >= 0,
                seq_prod_sum(xs, xs) == ss + x * x,
                seq_sum(xs) == s + x,
                xs.len() == k + 1,
                slope_den(xs) == xs.len() * seq_prod_sum(xs, xs) - seq_sum(xs) * seq_sum(xs),
        {
        }
    }
}

/// An exact integer rational with a positive denominator.
pub struct Ratio {
    pub num: i128,
    pub den: i128,
}

/// An exactly fitted regression line; both rationals share the same
/// positive denominator.
pub struct LineFit {
    pub slope: Ratio,
    pub intercept: Ratio,
}

/// Fits a least-squares line through the samples `(x[i], y[i])`,
/// exactly. Fails with `DegenerateRegression` exactly when the
/// denominator `n·Σx² − (Σx)²` is zero, which covers fewer than two
/// samples and all `x` values identical.
///
/// The magnitude bounds on the samples and the length are forced by the
/// 128-bit arithmetic the sums are carried out in.
pub fn linear_regression(x: &[i64], y: &[i64]) -> (r: Result<LineFit, AnalysisError>)
    requires
        x@.len() == y@.len(),
        x@.len() <= 0x10_0000,
        forall|i: int| 0 <= i < x@.len() ==> -0x10_0000 <= #[trigger] x@[i] <= 0x10_0000,
        forall|i: int| 0 <= i < y@.len() ==> -0x1_0000_0000 <= #[trigger] y@[i] <= 0x1_0000_0000,
    ensures
        r is Ok <==> slope_den(ints64(x@)) != 0,
        r is Err ==> r == Err::<LineFit, AnalysisError>(AnalysisError::DegenerateRegression),
        r matches Ok(fit) ==> {
            &&& fit.slope.num == slope_num(ints64(x@), ints64(y@))
            &&& fit.slope.den == slope_den(ints64(x@))
            &&& fit.intercept.num == intercept_num(ints64(x@), ints64(y@))
            &&& fit.intercept.den == slope_den(ints64(x@))
            &&& fit.slope.den > 0
            &&& -0x2000_0000_0000_0000_0000_0000i128 <= fit.slope.num <= 0x2000_0000_0000_0000_0000_0000i128
            &&& fit.slope.den <= 0x2_0000_0000_0000_0000_0000i128
            &&& -0x2_0000_0000_0000_0000_0000_0000_0000i128 <= fit.intercept.num <= 0x2_0000_0000_0000_0000_0000_0000_0000i128
        },
{
    let ghost xs = ints64(x@);
    let ghost ys = ints64(y@);
    let n_us: usize = x.len();
    let mut sx: i128 = 0;
    let mut sy: i128 = 0;
    let mut sxx: i128 = 0;
    let mut sxy: i128 = 0;
    let mut i: usize = 0;
    while i < n_us
        invariant
            xs == ints64(x@),
            ys == ints64(y@),
            n_us == x@.len(),
            x@.len() == y@.len(),
            x@.len() <= 0x10_0000,
            forall|j: int| 0 <= j < x@.len() ==> -0x10_0000 <= #[trigger] x@[j] <= 0x10_0000,
            forall|j: int| 0 <= j < y@.len() ==> -0x1_0000_0000 <= #[trigger] y@[j] <= 0x1_0000_0000,
            0 <= i <= n_us,
            sx == seq_sum(xs.take(i as int)),
            sy == seq_sum(ys.take(i as int)),
            sxx == seq_prod_sum(xs.take(i as int), xs.take(i as int)),
            sxy == seq_prod_sum(xs.take(i as int), ys.take(i as int)),
            -0x10_0000 * i <= sx <= 0x10_0000 * i,
            -0x1_0000_0000 * i <= sy <= 0x1_0000_0000 * i,
            -0x100_0000_0000 * i <= sxx <= 0x100_0000_0000 * i,
            -0x10_0000_0000_0000 * i <= sxy <= 0x10_0000_0000_0000 * i,
        decreases n_us - i,
    {
        proof {
            crate::graph::lemma_take_succ(xs, i as int);
            crate::graph::lemma_take_succ(ys, i as int);
            assert(xs.take(i as int + 1).drop_last() =~= xs.take(i as int));
            assert(ys.take(i as int + 1).drop_last() =~= ys.take(i as int));
        }
        let xi: i128 = x[i] as i128;
        let yi: i128 = y[i] as i128;
        proof {
            assert(xi == xs[i as int] && yi == ys[i as int]);
            assert(-0x100_0000_0000 <= xi * xi <= 0x100_0000_0000) by (nonlinear_arith)
                requires
                    -0x10_0000 <= xi <= 0x10_0000,
            {
            }
            assert(-0x10_0000_0000_0000 <= xi * yi <= 0x10_0000_0000_0000) by (nonlinear_arith)
                requires
                    -0x10_0000 <= xi <= 0x10_0000,
                    -0x1_0000_0000 <= yi <= 0x1_0000_0000,
            {
            }
        }
        sx = sx + xi;
        sy = sy + yi;
        sxx = sxx + xi * xi;
        sxy = sxy + xi * yi;
        i = i + 1;
    }
    proof {
        assert(xs.take(n_us as int) =~= xs);
        assert(ys.take(n_us as int) =~= ys);
    }
    let n: i128 = n_us as i128;
    proof {
        // concrete magnitude bounds on the four sums
        assert(-0x100_0000_0000 <= sx <= 0x100_0000_0000);
        assert(-0x10_0000_0000_0000 <= sy <= 0x10_0000_0000_0000);
        assert(-0x1000_0000_0000_0000 <= sxx <= 0x1000_0000_0000_0000);
        assert(-0x100_0000_0000_0000_0000 <= sxy <= 0x100_0000_0000_0000_0000);
        assert(-0x1_0000_0000_0000_0000_0000 <= n * sxx <= 0x1_0000_0000_0000_0000_0000) by (nonlinear_arith)
            requires
                0 <= n <= 0x10_0000,
                -0x1000_0000_0000_0000 <= sxx <= 0x1000_0000_0000_0000,
        {
        }
        assert(-0x1_0000_0000_0000_0000_0000 <= sx * sx <= 0x1_0000_0000_0000_0000_0000) by (nonlinear_arith)
            requires
                -0x100_0000_0000 <= sx <= 0x100_0000_0000,
        {
        }
        assert(-0x1000_0000_0000_0000_0000_0000 <= n * sxy <= 0x1000_0000_0000_0000_0000_0000) by (nonlinear_arith)
            requires
                0 <= n <= 0x10_0000,
                -0x100_0000_0000_0000_0000 <= sxy <= 0x100_0000_0000_0000_0000,
        {
        }
        assert(-0x1000_0000_0000_0000_0000_0000 <= sx * sy <= 0x1000_0000_0000_0000_0000_0000) by (nonlinear_arith)
            requires
                -0x100_0000_0000 <= sx <= 0x100_0000_0000,
                -0x10_0000_0000_0000 <= sy <= 0x10_0000_0000_0000,
        {
        }
        assert(-0x1_0000_0000_0000_0000_0000_0000_0000 <= sy * sxx <= 0x1_0000_0000_0000_0000_0000_0000_0000) by (nonlinear_arith)
            requires
                -0x10_0000_0000_0000 <= sy <= 0x10_0000_0000_0000,
                -0x1000_0000_0000_0000 <= sxx <= 0x1000_0000_0000_0000,
        {
        }
        assert(-0x1_0000_0000_0000_0000_0000_0000_0000 <= sx * sxy <= 0x1_0000_0000_0000_0000_0000_0000_0000) by (nonlinear_arith)
            requires
                -0x100_0000_0000 <= sx <= 0x100_0000_0000,
                -0x100_0000_0000_0000_0000 <= sxy <= 0x100_0000_0000_0000_0000,
        {
        }
    }
    let den: i128 = n * sxx - sx * sx;
    if den == 0 {
        return Err(AnalysisError::DegenerateRegression);
    }
    proof {
        lemma_den_nonneg(xs);
    }
    let num: i128 = n * sxy - sx * sy;
    let inum: i128 = sy * sxx - sx * sxy;
    Ok(LineFit {
        slope: Ratio { num, den },
        intercept: Ratio { num: inum, den },
    })
}

} // verus!
