//! The passenger-volume forecast. Records are aggregated into calendar
//! months — regardless of activity kind, so records the graph builder
//! skips still count here, a deliberate, documented divergence between
//! the two consumers. An ordinary-least-squares line is fitted against
//! the month index `12·year + month`, and the twelve months of the year
//! after the chronologically last observed period are extrapolated.
//!
//! Predicted values are the exact rational `slope·index + intercept`
//! rounded toward zero; the policy for out-of-range predictions is
//! saturation, stated explicitly: a negative prediction is reported as
//! zero and one beyond `u32::MAX` as `u32::MAX`.

use vstd::prelude::*;
use crate::error::AnalysisError;
use crate::period::format_month_key;
use crate::period::month_key;
use crate::period::parse_period;
use crate::period::period_month;
use crate::period::period_ok;
use crate::period::period_year;
use crate::record::ActivityRecord;
use crate::record::RecordModel;
use crate::record::models;
use crate::regression::intercept_num;
use crate::regression::ints64;
use crate::regression::linear_regression;
use crate::regression::slope_den;
use crate::regression::slope_num;

verus! {

/// Whether every record's period field is well-formed.
pub open spec fn all_periods_ok(rs: Seq<RecordModel>) -> bool {
    forall|i: int| 0 <= i < rs.len() ==> period_ok((#[trigger] rs[i]).period)
}

/// The total passenger count of the calendar month (y, m), summed over
/// all records of that period whatever their activity kind.
pub open spec fn month_total(rs: Seq<RecordModel>, y: int, m: int) -> int
    decreases rs.len(),
{
    if rs.len() == 0 {
        0
    } else {
        month_total(rs.drop_last(), y, m) + (
        if period_ok(rs.last().period) && period_year(rs.last().period) == y && period_month(
            rs.last().period,
        ) == m {
            rs.last().count as int
        } else {
            0
        })
    }
}

/// The distinct observed months as (year, month) pairs, in order of
/// first appearance in the record stream.
pub open spec fn months_of(rs: Seq<RecordModel>) -> Seq<(int, int)>
    decreases rs.len(),
{
    if rs.len() == 0 {
        Seq::empty()
    } else {
        let pre = months_of(rs.drop_last());
        if period_ok(rs.last().period) && !pre.contains(
            (period_year(rs.last().period), period_month(rs.last().period)),
        ) {
            pre.push((period_year(rs.last().period), period_month(rs.last().period)))
        } else {
            pre
        }
    }
}

/// The regression inputs on the x side: the month index `12·y + m` of
/// each observed month.
pub open spec fn month_xs(ms: Seq<(int, int)>) -> Seq<int> {
    ms.map_values(|p: (int, int)| 12 * p.0 + p.1)
}

/// The regression inputs on the y side: the aggregated total of each
/// observed month.
pub open spec fn month_ys(ms: Seq<(int, int)>, rs: Seq<RecordModel>) -> Seq<int> {
    ms.map_values(|p: (int, int)| month_total(rs, p.0, p.1))
}

/// The largest month index among the observed months: the index of the
/// chronologically last observed period.
pub open spec fn max_month_index(ms: Seq<(int, int)>) -> int
    decreases ms.len(),
{
    if ms.len() == 0 {
        0
    } else {
        let rest = max_month_index(ms.drop_last());
        let cur = 12 * ms.last().0 + ms.last().1;
        if cur >= rest {
            cur
        } else {
            rest
        }
    }
}

/// The calendar year of the chronologically last observed period.
pub open spec fn latest_year(ms: Seq<(int, int)>) -> int {
    (max_month_index(ms) - 1) / 12
}

/// Integer division rounded toward zero, for a positive divisor.
pub open spec fn trunc_div(n: int, d: int) -> int {
    if n >= 0 {
        n / d
    } else {
        -((-n) / d)
    }
}

/// The saturation policy for predictions: negative values are reported
/// as zero, values beyond the count type as its maximum.
pub open spec fn clamp_count(v: int) -> int {
    if v < 0 {
        0
    } else if v > u32::MAX {
        u32::MAX as int
    } else {
        v
    }
}

/// The predicted passenger count at month index `idx`: the fitted line
/// evaluated exactly, rounded toward zero, saturated to the count type.
pub open spec fn forecast_value(rs: Seq<RecordModel>, idx: int) -> int {
    let ms = months_of(rs);
    let xs = month_xs(ms);
    let ys = month_ys(ms, rs);
    clamp_count(trunc_div(slope_num(xs, ys) * idx + intercept_num(xs, ys), slope_den(xs)))
}

/// One observed calendar month and its aggregated passenger count.
pub struct MonthTotal {
    pub year: u32,
    pub month: u32,
    pub total: u32,
}

impl MonthTotal {
    /// The canonical `YYYY-MM` key of this month.
    pub fn key(&self) -> (s: String)
        ensures
            s@ == month_key(self.year as nat, self.month as nat),
    {
        format_month_key(self.year, self.month)
    }
}

/// The (year, month) pairs of a list of month totals.
pub open spec fn month_pairs(ms: Seq<MonthTotal>) -> Seq<(int, int)> {
    ms.map_values(|t: MonthTotal| (t.year as int, t.month as int))
}

/// The monthly aggregate: one entry per distinct observed month, in
/// order of first appearance.
pub struct MonthlyAggregate {
    pub months: Vec<MonthTotal>,
}

impl MonthlyAggregate {
    /// Well-formedness: years have at most four digits, months are
    /// calendar months, and no month appears twice.
    pub open spec fn wf(self) -> bool {
        &&& forall|i: int|
            0 <= i < self.months@.len() ==> (#[trigger] self.months@[i]).year <= 9999 && 1
                <= self.months@[i].month <= 12
        &&& month_pairs(self.months@).no_duplicates()
    }
}

/// How one more record changes the monthly totals and the observed
/// month list.
proof fn lemma_month_step(pre: Seq<RecordModel>, r: RecordModel)
    ensures
        forall|y: int, m: int|
            month_total(pre.push(r), y, m) == month_total(pre, y, m) + (
            if period_ok(r.period) && period_year(r.period) == y && period_month(r.period) == m {
                r.count as int
            } else {
                0
            }),
        months_of(pre.push(r)) == (
        if period_ok(r.period) && !months_of(pre).contains(
            (period_year(r.period), period_month(r.period)),
        ) {
            months_of(pre).push((period_year(r.period), period_month(r.period)))
        } else {
            months_of(pre)
        }),
{
    assert(pre.push(r).drop_last() =~= pre);
}

/// The monthly total of a prefix is at most that of the whole sequence.
proof fn lemma_month_total_prefix(rs: Seq<RecordModel>, y: int, m: int, k: int)
    requires
        0 <= k <= rs.len(),
    ensures
        month_total(rs.take(k), y, m) <= month_total(rs, y, m),
    decreases rs.len() - k,
{
    if k == rs.len() {
        assert(rs.take(k) =~= rs);
    } else {
        crate::graph::lemma_take_succ(rs, k);
        assert(rs.take(k).push(rs[k]).drop_last() =~= rs.take(k));
        lemma_month_total_prefix(rs, y, m, k + 1);
    }
}

/// A month that never appeared carries a zero total.
proof fn lemma_absent_month_total_zero(rs: Seq<RecordModel>, y: int, m: int)
    requires
        !months_of(rs).contains((y, m)),
    ensures
        month_total(rs, y, m) == 0,
    decreases rs.len(),
{
    if rs.len() > 0 {
        let pre = rs.drop_last();
        let r = rs.last();
        assert(!months_of(pre).contains((y, m))) by {
            if months_of(pre).contains((y, m)) {
                let j = choose|j: int| 0 <= j < months_of(pre).len() && months_of(pre)[j] == (y, m);
                if period_ok(r.period) && !months_of(pre).contains(
                    (period_year(r.period), period_month(r.period)),
                ) {
                    assert(months_of(rs)[j] == (y, m));
                } else {
                    assert(months_of(rs)[j] == (y, m));
                }
            }
        }
        lemma_absent_month_total_zero(pre, y, m);
        assert(!(period_ok(r.period) && period_year(r.period) == y && period_month(r.period)
            == m)) by {
            if period_ok(r.period) && period_year(r.period) == y && period_month(r.period) == m {
                if !months_of(pre).contains((y, m)) {
                    assert(months_of(rs).last() == (y, m));
                }
            }
        }
    }
}

/// Distinct calendar months with four-digit years number at most
/// 120000: each maps to a distinct index `12·y + m` between 1 and
/// 120000.
proof fn lemma_months_bounded(ms: Seq<(int, int)>)
    requires
        ms.no_duplicates(),
        forall|i: int| 0 <= i < ms.len() ==> 0 <= (#[trigger] ms[i]).0 <= 9999 && 1 <= ms[i].1 <= 12,
    ensures
        ms.len() <= 120000,
{
    let is = ms.map_values(|p: (int, int)| 12 * p.0 + p.1);
    assert(is.no_duplicates()) by {
        assert forall|i: int, j: int|
            (0 <= i < is.len() && 0 <= j < is.len() && i != j) implies is[i] != is[j] by {
            if is[i] == is[j] {
                assert(ms[i].0 == ms[j].0 && ms[i].1 == ms[j].1);
                assert(ms[i] == ms[j]);
            }
        }
    }
    is.unique_seq_to_set();
    assert(is.to_set().subset_of(vstd::set_lib::set_int_range(1, 120001))) by {
        assert forall|v: int|
            is.to_set().contains(v) implies vstd::set_lib::set_int_range(1, 120001).contains(
            v,
        ) by {
            let i = choose|i: int| 0 <= i < is.len() && is[i] == v;
            assert(1 <= v <= 120000);
        }
    }
    vstd::set_lib::lemma_int_range(1, 120001);
    vstd::set_lib::lemma_len_subset(is.to_set(), vstd::set_lib::set_int_range(1, 120001));
}

/// Linear search for an observed month.
fn find_month(months: &Vec<MonthTotal>, y: u32, m: u32) -> (r: Option<usize>)
    ensures
        match r {
            Some(i) => i < months@.len() && months@[i as int].year == y && months@[i as int].month
                == m,
            None => !month_pairs(months@).contains((y as int, m as int)),
        },
{
    let mut i: usize = 0;
    while i < months.len()
        invariant
            0 <= i <= months@.len(),
            forall|j: int|
                0 <= j < i ==> !((#[trigger] months@[j]).year == y && months@[j].month == m),
        decreases months@.len() - i,
    {
        if months[i].year == y && months[i].month == m {
            return Some(i);
        }
        i = i + 1;
    }
    proof {
        if month_pairs(months@).contains((y as int, m as int)) {
            let j = choose|j: int|
                0 <= j < month_pairs(months@).len() && month_pairs(months@)[j] == (
                y as int,
                m as int,
            );
            assert(months@[j].year == y && months@[j].month == m);
        }
    }
    None
}

/// Aggregates passenger counts into calendar-month buckets, keyed by the
/// parsed period, in order of first appearance. Every record counts,
/// whatever its activity kind. Fails with `MalformedPeriod` exactly when
/// some record's period is not well-formed.
///
/// The bound on each month's total is forced by the 32-bit counters the
/// totals are accumulated in.
pub fn aggregate_monthly(records: &[ActivityRecord]) -> (r: Result<MonthlyAggregate, AnalysisError>)
    requires
        forall|y: int, m: int| month_total(models(records@), y, m) <= u32::MAX,
    ensures
        r is Ok <==> all_periods_ok(models(records@)),
        r is Err ==> r == Err::<MonthlyAggregate, AnalysisError>(AnalysisError::MalformedPeriod),
        r matches Ok(agg) ==> {
            &&& agg.wf()
            &&& month_pairs(agg.months@) == months_of(models(records@))
            &&& forall|j: int|
                0 <= j < agg.months@.len() ==> (#[trigger] agg.months@[j]).total == month_total(
                    models(records@),
                    agg.months@[j].year as int,
                    agg.months@[j].month as int,
                )
        },
{
    let ghost rs = models(records@);
    let mut months: Vec<MonthTotal> = Vec::new();
    let mut k: usize = 0;
    while k < records.len()
        invariant
            rs == models(records@),
            rs.len() == records@.len(),
            forall|y: int, m: int| month_total(rs, y, m) <= u32::MAX,
            0 <= k <= records@.len(),
            all_periods_ok(rs.take(k as int)),
            month_pairs(months@) == months_of(rs.take(k as int)),
            month_pairs(months@).no_duplicates(),
            forall|j: int|
                0 <= j < months@.len() ==> (#[trigger] months@[j]).year <= 9999 && 1
                    <= months@[j].month <= 12,
            forall|j: int|
                0 <= j < months@.len() ==> (#[trigger] months@[j]).total == month_total(
                    rs.take(k as int),
                    months@[j].year as int,
                    months@[j].month as int,
                ),
        decreases records@.len() - k,
    {
        let rec = &records[k];
        let ghost pre = rs.take(k as int);
        let ghost r = rs[k as int];
        let ghost post = rs.take(k as int + 1);
        let ghost pairs0 = month_pairs(months@);
        proof {
            crate::graph::lemma_take_succ(rs, k as int);
            assert(post == pre.push(r));
            lemma_month_step(pre, r);
            assert(r == records@[k as int]@);
        }
        let ym = match parse_period(rec.activity_period.as_str()) {
            Ok(ym) => ym,
            Err(e) => {
                proof {
                    assert(!period_ok(rs[k as int].period));
                }
                return Err(e);
            },
        };
        let ghost yy = ym.0 as int;
        let ghost mm = ym.1 as int;
        proof {
            assert(yy == period_year(r.period) && mm == period_month(r.period));
            assert forall|i: int| 0 <= i < post.len() implies period_ok(
                (#[trigger] post[i]).period,
            ) by {
                if i < pre.len() {
                    assert(post[i] == pre[i]);
                }
            }
        }
        match find_month(&months, ym.0, ym.1) {
            Some(i) => {
                let t = months[i].total;
                proof {
                    assert(month_pairs(months@)[i as int] == (yy, mm));
                    assert(months_of(pre).contains((yy, mm)));
                    assert(months_of(post) == months_of(pre));
                    assert(t == month_total(pre, yy, mm));
                    lemma_month_total_prefix(rs, yy, mm, k as int + 1);
                    assert(month_total(post, yy, mm) == t + r.count);
                }
                months[i] = MonthTotal { year: ym.0, month: ym.1, total: t + rec.passenger_count };
                proof {
                    assert(month_pairs(months@) =~= pairs0);
                    assert forall|j: int| 0 <= j < months@.len() implies (#[trigger] months@[j]).total
                        == month_total(post, months@[j].year as int, months@[j].month as int) by {
                        if j != i {
                            assert(month_pairs(months@)[j] == pairs0[j]);
                            assert(!(months@[j].year as int == yy && months@[j].month as int
                                == mm)) by {
                                if months@[j].year as int == yy && months@[j].month as int == mm {
                                    assert(pairs0[j] == (yy, mm));
                                    assert(pairs0[i as int] == (yy, mm));
                                }
                            }
                        }
                    }
                }
            },
            None => {
                proof {
                    assert(!months_of(pre).contains((yy, mm)));
                    lemma_absent_month_total_zero(pre, yy, mm);
                    assert(month_total(post, yy, mm) == r.count);
                    lemma_month_total_prefix(rs, yy, mm, k as int + 1);
                }
                months.push(MonthTotal { year: ym.0, month: ym.1, total: rec.passenger_count });
                proof {
                    assert(month_pairs(months@) =~= pairs0.push((yy, mm)));
                    assert(months_of(post) == months_of(pre).push((yy, mm)));
                    assert forall|p: int, q: int|
                        (0 <= p < month_pairs(months@).len() && 0 <= q < month_pairs(months@).len()
                            && p != q) implies month_pairs(months@)[p] != month_pairs(
                        months@,
                    )[q] by {
                        if p < pairs0.len() && q < pairs0.len() {
                            assert(pairs0[p] != pairs0[q]);
                        } else if p < pairs0.len() {
                            assert(months_of(pre)[p] == pairs0[p]);
                            assert(months_of(pre).contains(pairs0[p]));
                        } else {
                            assert(months_of(pre)[q] == pairs0[q]);
                            assert(months_of(pre).contains(pairs0[q]));
                        }
                    }
                    assert forall|j: int| 0 <= j < months@.len() implies (#[trigger] months@[j]).total
                        == month_total(post, months@[j].year as int, months@[j].month as int) by {
                        if j < pairs0.len() {
                            assert(month_pairs(months@)[j] == pairs0[j]);
                            assert(!(months@[j].year as int == yy && months@[j].month as int
                                == mm)) by {
                                if months@[j].year as int == yy && months@[j].month as int == mm {
                                    assert(months_of(pre).contains(pairs0[j]));
                                }
                            }
                        }
                    }
                }
            },
        }
        k = k + 1;
    }
    proof {
        assert(rs.take(records@.len() as int) =~= rs);
    }
    Ok(MonthlyAggregate { months })
}

/// One forecast entry: a canonical `YYYY-MM` key of the year after the
/// last observed period, and its predicted passenger count.
pub struct ForecastEntry {
    pub period: String,
    pub predicted: u32,
}

/// The twelve-month forecast, in calendar order.
pub struct ForecastTable {
    pub entries: Vec<ForecastEntry>,
}

/// Forecasts the twelve monthly passenger totals of the year after the
/// chronologically last observed period, by an exact least-squares fit
/// of the monthly totals against the month index. Fails with
/// `MalformedPeriod` when some record's period is not well-formed, with
/// `InsufficientData` when fewer than two distinct months were observed,
/// and with `DegenerateRegression` when the fit denominator is zero.
///
/// The bound on each month's total is forced by the 32-bit counters the
/// totals are accumulated in.
pub fn predict_passenger_counts_by_month(records: &[ActivityRecord]) -> (r: Result<
    ForecastTable,
    AnalysisError,
>)
    requires
        forall|y: int, m: int| month_total(models(records@), y, m) <= u32::MAX,
    ensures
        r is Ok <==> (all_periods_ok(models(records@)) && months_of(models(records@)).len() >= 2
            && slope_den(month_xs(months_of(models(records@)))) != 0),
        r == Err::<ForecastTable, AnalysisError>(AnalysisError::MalformedPeriod)
            <==> !all_periods_ok(models(records@)),
        r == Err::<ForecastTable, AnalysisError>(AnalysisError::InsufficientData) <==> (
        all_periods_ok(models(records@)) && months_of(models(records@)).len() < 2),
        r == Err::<ForecastTable, AnalysisError>(AnalysisError::DegenerateRegression) <==> (
        all_periods_ok(models(records@)) && months_of(models(records@)).len() >= 2 && slope_den(
            month_xs(months_of(models(records@))),
        ) == 0),
        r matches Ok(t) ==> {
            &&& t.entries@.len() == 12
            &&& forall|j: int|
                0 <= j < 12 ==> (#[trigger] t.entries@[j]).period@ == month_key(
                    (latest_year(months_of(models(records@))) + 1) as nat,
                    (j + 1) as nat,
                )
            &&& forall|j: int|
                0 <= j < 12 ==> (#[trigger] t.entries@[j]).predicted == forecast_value(
                    models(records@),
                    12 * (latest_year(months_of(models(records@))) + 1) + (j + 1),
                )
        },
{
    let ghost rs = models(records@);
    let ghost ms = months_of(rs);
    let agg = match aggregate_monthly(records) {
        Ok(a) => a,
        Err(e) => {
            return Err(e);
        },
    };
    let nm = agg.months.len();
    if nm < 2 {
        return Err(AnalysisError::InsufficientData);
    }
    let mut x: Vec<i64> = Vec::new();
    let mut y: Vec<i64> = Vec::new();
    let mut j: usize = 0;
    while j < nm
        invariant
            month_pairs(agg.months@) == ms,
            agg.months@.len() == nm,
            forall|i: int|
                0 <= i < nm ==> (#[trigger] agg.months@[i]).year <= 9999 && 1
                    <= agg.months@[i].month <= 12,
            forall|i: int|
                0 <= i < nm ==> (#[trigger] agg.months@[i]).total == month_total(
                    rs,
                    agg.months@[i].year as int,
                    agg.months@[i].month as int,
                ),
            0 <= j <= nm,
            x@.len() == j,
            y@.len() == j,
            forall|i: int| 0 <= i < j ==> #[trigger] x@[i] as int == month_xs(ms)[i],
            forall|i: int| 0 <= i < j ==> #[trigger] y@[i] as int == month_ys(ms, rs)[i],
            forall|i: int| 0 <= i < j ==> 0 <= #[trigger] x@[i] <= 0x10_0000,
            forall|i: int| 0 <= i < j ==> 0 <= #[trigger] y@[i] <= 0x1_0000_0000,
        decreases nm - j,
    {
        let mt = &agg.months[j];
        proof {
            assert(month_pairs(agg.months@)[j as int] == (mt.year as int, mt.month as int));
        }
        x.push(12 * (mt.year as i64) + (mt.month as i64));
        y.push(mt.total as i64);
        j = j + 1;
    }
    proof {
        lemma_months_bounded(ms);
        assert(ints64(x@) =~= month_xs(ms));
        assert(ints64(y@) =~= month_ys(ms, rs));
    }
    let fit = match linear_regression(x.as_slice(), y.as_slice()) {
        Ok(f) => f,
        Err(e) => {
            return Err(e);
        },
    };
    let mut mx: u32 = 0;
    let mut j: usize = 0;
    while j < nm
        invariant
            month_pairs(agg.months@) == ms,
            agg.months@.len() == nm,
            forall|i: int|
                0 <= i < nm ==> (#[trigger] agg.months@[i]).year <= 9999 && 1
                    <= agg.months@[i].month <= 12,
            0 <= j <= nm,
            mx == max_month_index(ms.take(j as int)),
            mx <= 120000,
            j > 0 ==> mx >= 1,
        decreases nm - j,
    {
        proof {
            crate::graph::lemma_take_succ(ms, j as int);
            assert(ms.take(j as int + 1).drop_last() =~= ms.take(j as int));
            assert(ms.take(j as int + 1).last() == ms[j as int]);
            assert(month_pairs(agg.months@)[j as int] == (
                agg.months@[j as int].year as int,
                agg.months@[j as int].month as int,
            ));
        }
        let mt = &agg.months[j];
        let cur: u32 = 12 * mt.year + mt.month;
        if cur >= mx {
            mx = cur;
        }
        j = j + 1;
    }
    proof {
        assert(ms.take(nm as int) =~= ms);
    }
    let ly: u32 = (mx - 1) / 12;
    proof {
        assert(ly == latest_year(ms));
        assert(ly <= 9999);
    }
    let mut entries: Vec<ForecastEntry> = Vec::new();
    let mut mo: u32 = 1;
    while mo <= 12
        invariant
            1 <= mo <= 13,
            ly == latest_year(ms),
            ly <= 9999,
            ms == months_of(rs),
            fit.slope.num == slope_num(month_xs(ms), month_ys(ms, rs)),
            fit.slope.den == slope_den(month_xs(ms)),
            fit.intercept.num == intercept_num(month_xs(ms), month_ys(ms, rs)),
            fit.slope.den > 0,
            -0x2000_0000_0000_0000_0000_0000 <= fit.slope.num <= 0x2000_0000_0000_0000_0000_0000,
            fit.slope.den <= 0x2_0000_0000_0000_0000_0000,
            -0x2_0000_0000_0000_0000_0000_0000_0000 <= fit.intercept.num
                <= 0x2_0000_0000_0000_0000_0000_0000_0000,
            entries@.len() == mo - 1,
            forall|i: int|
                0 <= i < mo - 1 ==> (#[trigger] entries@[i]).period@ == month_key(
                    (ly + 1) as nat,
                    (i + 1) as nat,
                ),
            forall|i: int|
                0 <= i < mo - 1 ==> (#[trigger] entries@[i]).predicted == forecast_value(
                    rs,
                    12 * (ly as int + 1) + (i + 1),
                ),
        decreases 13 - mo,
    {
        let idx: i128 = 12 * (ly as i128 + 1) + mo as i128;
        proof {
            assert(-0x8_0000_0000_0000_0000_0000_0000_0000 <= fit.slope.num * idx
                <= 0x8_0000_0000_0000_0000_0000_0000_0000) by (nonlinear_arith)
                requires
                    -0x2000_0000_0000_0000_0000_0000 <= fit.slope.num
                        <= 0x2000_0000_0000_0000_0000_0000,
                    0 <= idx <= 0x4_0000,
            {
            }
        }
        let num: i128 = fit.slope.num * idx + fit.intercept.num;
        let den: i128 = fit.slope.den;
        let pred: u32 = if num < 0 {
            0
        } else {
            let q: u128 = (num as u128) / (den as u128);
            if q > 0xFFFF_FFFFu128 {
                0xFFFF_FFFFu32
            } else {
                q as u32
            }
        };
        proof {
            if num >= 0 {
                assert((num as u128 / (den as u128)) as int == num as int / den as int);
                assert(trunc_div(num as int, den as int) == num as int / den as int);
            } else {
                assert((-(num as int)) / (den as int) >= 0);
                assert(trunc_div(num as int, den as int) <= 0);
            }
            assert(pred == forecast_value(rs, idx as int));
        }
        let key = format_month_key(ly + 1, mo);
        entries.push(ForecastEntry { period: key, predicted: pred });
        mo = mo + 1;
    }
    Ok(ForecastTable { entries })
}

} // verus!
