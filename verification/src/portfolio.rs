use vstd::prelude::*;

use crate::date::Date;
use crate::decimal::Decimal;

verus! {

/// A trade as the valuation engine consumes it: the signed change in held
/// units of one instrument on one calendar day.
pub struct TradeForCalculation {
    pub date: Date,
    pub amount: i64,
    pub ticker: String,
}

impl Clone for TradeForCalculation {
    fn clone(&self) -> (r: Self)
        ensures
            r == *self,
    {
        TradeForCalculation { date: self.date, amount: self.amount, ticker: self.ticker.clone() }
    }
}

/// One instrument's closing price on one calendar day.
pub struct DailyPrice {
    pub date: Date,
    pub price: Decimal,
    pub ticker: String,
}

impl Clone for DailyPrice {
    fn clone(&self) -> (r: Self)
        ensures
            r == *self,
    {
        DailyPrice { date: self.date, price: self.price, ticker: self.ticker.clone() }
    }
}

/// One point of the valuation series: the value held in one instrument at
/// the close of one priced day.
#[derive(Clone, Copy, PartialEq, Eq, Structural, Debug)]
pub struct Portfolio {
    pub date: Date,
    pub amount_in_euros: Decimal,
}

/// Why the valuation builder refused its input.
#[derive(Clone, Copy, PartialEq, Eq, Structural, Debug)]
pub enum BuildError {
    /// The price list is not strictly ascending by date.
    UnsortedPrices,
    /// The trade list is not ascending by date.
    UnsortedTrades,
    /// A running position left `i64`, or a value's mantissa left `i128`.
    ValueOverflow,
}

/// Prices must come strictly ascending by date: one row per day.
pub open spec fn prices_sorted(ps: Seq<DailyPrice>) -> bool {
    forall|i: int, j: int| 0 <= i < j < ps.len() ==> #[trigger] ps[i].date.day < #[trigger] ps[j].date.day
}

/// Trades must come ascending by date; several trades may share a day.
pub open spec fn trades_sorted(ts: Seq<TradeForCalculation>) -> bool {
    forall|i: int, j: int| 0 <= i < j < ts.len() ==> #[trigger] ts[i].date.day <= #[trigger] ts[j].date.day
}

/// The sum of all trade amounts in `ts`.
pub open spec fn amount_sum(ts: Seq<TradeForCalculation>) -> int
    decreases ts.len(),
{
    if ts.len() == 0 {
        0
    } else {
        amount_sum(ts.drop_last()) + ts.last().amount as int
    }
}

/// The position held through day `d`: the sum of every trade amount dated
/// on or before `d`. Trades sharing a day are all counted.
pub open spec fn position_through(ts: Seq<TradeForCalculation>, d: Date) -> int
    decreases ts.len(),
{
    if ts.len() == 0 {
        0
    } else {
        position_through(ts.drop_last(), d) + if ts.last().date.day <= d.day {
            ts.last().amount as int
        } else {
            0
        }
    }
}

/// The point emitted for priced day `p`: that day's close times the
/// position held through that day. The scale is the price's own; only the
/// mantissa is multiplied, so the value is exact whenever it fits.
pub open spec fn point_of(p: DailyPrice, ts: Seq<TradeForCalculation>) -> Portfolio {
    Portfolio {
        date: p.date,
        amount_in_euros: Decimal {
            mantissa: (p.price.mantissa * position_through(ts, p.date)) as i128,
            scale: p.price.scale,
        },
    }
}

/// The valuation series over `ps`: one point per priced day on or after
/// `start`, in the prices' own order. Days without a price emit nothing;
/// the position still carries forward through them.
pub open spec fn points_of(ps: Seq<DailyPrice>, ts: Seq<TradeForCalculation>, start: Date) -> Seq<
    Portfolio,
>
    decreases ps.len(),
{
    if ps.len() == 0 {
        Seq::empty()
    } else if ps.last().date.day >= start.day {
        points_of(ps.drop_last(), ts, start).push(point_of(ps.last(), ts))
    } else {
        points_of(ps.drop_last(), ts, start)
    }
}

/// The product behind one emitted point stays within `i128`.
pub open spec fn product_fits(p: DailyPrice, ts: Seq<TradeForCalculation>) -> bool {
    i128::MIN as int <= p.price.mantissa as int * position_through(ts, p.date) <= i128::MAX as int
}

/// Every running position the builder passes through stays within `i64`:
/// each prefix of trades dated on or before the last priced day `end` sums
/// inside the type.
pub open spec fn positions_fit(ts: Seq<TradeForCalculation>, end: Date) -> bool {
    forall|k: int|
        0 < k <= ts.len() && #[trigger] ts[k - 1].date.day <= end.day ==> i64::MIN as int
            <= #[trigger] amount_sum(ts.take(k)) <= i64::MAX as int
}

/// All machine limits the builder runs against, for non-empty sorted input.
pub open spec fn fits(ps: Seq<DailyPrice>, ts: Seq<TradeForCalculation>) -> bool {
    &&& positions_fit(ts, ps.last().date)
    &&& forall|i: int|
        0 <= i < ps.len() && #[trigger] ps[i].date.day >= ts[0].date.day ==> product_fits(
            ps[i],
            ts,
        )
}

/// What the builder returns, for every input. Empty input yields an empty
/// series; unsorted or overflowing input is refused, each with its own
/// error; otherwise the series is `points_of` from the first trade's day.
pub open spec fn build_spec(ps: Seq<DailyPrice>, ts: Seq<TradeForCalculation>) -> Result<
    Seq<Portfolio>,
    BuildError,
> {
    if ps.len() == 0 || ts.len() == 0 {
        Ok(Seq::empty())
    } else if !prices_sorted(ps) {
        Err(BuildError::UnsortedPrices)
    } else if !trades_sorted(ts) {
        Err(BuildError::UnsortedTrades)
    } else if !fits(ps, ts) {
        Err(BuildError::ValueOverflow)
    } else {
        Ok(points_of(ps, ts, ts[0].date))
    }
}

proof fn lemma_adjacent_prices(ps: Seq<DailyPrice>, a: int, b: int)
    requires
        forall|k: int| 0 <= k < ps.len() - 1 ==> #[trigger] ps[k].date.day < ps[k + 1].date.day,
        0 <= a < b < ps.len(),
    ensures
        ps[a].date.day < ps[b].date.day,
    decreases b - a,
{
    if a + 1 < b {
        lemma_adjacent_prices(ps, a + 1, b);
    }
}

proof fn lemma_adjacent_trades(ts: Seq<TradeForCalculation>, a: int, b: int)
    requires
        forall|k: int| 0 <= k < ts.len() - 1 ==> #[trigger] ts[k].date.day <= ts[k + 1].date.day,
        0 <= a < b < ts.len(),
    ensures
        ts[a].date.day <= ts[b].date.day,
    decreases b - a,
{
    if a + 1 < b {
        lemma_adjacent_trades(ts, a + 1, b);
    }
}

/// The builder verifies the ascending-date invariant instead of assuming
/// it: a silent violation would corrupt the running position.
#[verifier::loop_isolation(false)]
fn check_prices_sorted(ps: &Vec<DailyPrice>) -> (b: bool)
    ensures
        b == prices_sorted(ps@),
{
    let mut i: usize = 1;
    while i < ps.len()
        invariant
            1 <= i,
            forall|k: int| 0 <= k < i - 1 ==> #[trigger] ps@[k].date.day < ps@[k + 1].date.day,
        decreases ps.len() - i,
    {
        if ps[i - 1].date.day >= ps[i].date.day {
            assert(!prices_sorted(ps@));
            return false;
        }
        i += 1;
    }
    proof {
        assert forall|a: int, b: int| 0 <= a < b < ps@.len() implies ps@[a].date.day
            < ps@[b].date.day by {
            lemma_adjacent_prices(ps@, a, b);
        }
    }
    true
}

#[verifier::loop_isolation(false)]
fn check_trades_sorted(ts: &Vec<TradeForCalculation>) -> (b: bool)
    ensures
        b == trades_sorted(ts@),
{
    let mut i: usize = 1;
    while i < ts.len()
        invariant
            1 <= i,
            forall|k: int| 0 <= k < i - 1 ==> #[trigger] ts@[k].date.day <= ts@[k + 1].date.day,
        decreases ts.len() - i,
    {
        if ts[i - 1].date.day > ts[i].date.day {
            assert(!trades_sorted(ts@));
            return false;
        }
        i += 1;
    }
    proof {
        assert forall|a: int, b: int| 0 <= a < b < ts@.len() implies ts@[a].date.day
            <= ts@[b].date.day by {
            lemma_adjacent_trades(ts@, a, b);
        }
    }
    true
}

/// Splitting the trade list at `k`, with everything before dated on or
/// before `d` and everything after dated later, the position through `d`
/// is the sum of the first `k` amounts.
proof fn lemma_position_split(ts: Seq<TradeForCalculation>, d: Date, k: int)
    requires
        0 <= k <= ts.len(),
        forall|i: int| 0 <= i < k ==> #[trigger] ts[i].date.day <= d.day,
        forall|i: int| k <= i < ts.len() ==> #[trigger] ts[i].date.day > d.day,
    ensures
        position_through(ts, d) == amount_sum(ts.take(k)),
    decreases ts.len(),
{
    if ts.len() == 0 {
        assert(ts.take(k) =~= ts);
    } else if k == ts.len() {
        lemma_position_split(ts.drop_last(), d, k - 1);
        assert(ts.drop_last().take(k - 1) =~= ts.drop_last());
        assert(ts.take(k) =~= ts);
    } else {
        lemma_position_split(ts.drop_last(), d, k);
        assert(ts.drop_last().take(k) =~= ts.take(k));
    }
}

/// The valuation builder. Given one instrument's closing prices and trades,
/// both ascending by date, it walks the calendar from the first trade's day
/// to the last priced day and emits, for every priced day in between, the
/// running position times that day's close. Empty input gives an empty
/// series; out-of-order input and arithmetic that would leave the machine
/// types are refused, exactly as `build_spec` says.
#[verifier::loop_isolation(false)]
#[verifier::rlimit(60)]
pub fn build_portfolio(prices: &Vec<DailyPrice>, trades: &Vec<TradeForCalculation>) -> (r: Result<
    Vec<Portfolio>,
    BuildError,
>)
    ensures
        match r {
            Ok(out) => build_spec(prices@, trades@) == Ok::<Seq<Portfolio>, BuildError>(out@),
            Err(e) => build_spec(prices@, trades@) == Err::<Seq<Portfolio>, BuildError>(e),
        },
{
    let mut out: Vec<Portfolio> = Vec::new();
    if prices.len() == 0 || trades.len() == 0 {
        return Ok(out);
    }
    if !check_prices_sorted(prices) {
        return Err(BuildError::UnsortedPrices);
    }
    if !check_trades_sorted(trades) {
        return Err(BuildError::UnsortedTrades);
    }
    let ghost end: Date = prices@.last().date;
    let start_day: i64 = trades[0].date.day;
    let mut position: i64 = 0;
    let mut ti: usize = 0;
    let mut pi: usize = 0;
    while pi < prices.len()
        invariant
            pi <= prices.len(),
            ti <= trades.len(),
            position as int == amount_sum(trades@.take(ti as int)),
            forall|k: int|
                0 <= k <= ti ==> i64::MIN as int <= #[trigger] amount_sum(trades@.take(k))
                    <= i64::MAX as int,
            ti > 0 ==> pi > 0 && trades@[ti - 1].date.day <= prices@[pi - 1].date.day,
            forall|i: int|
                0 <= i < pi && #[trigger] prices@[i].date.day >= start_day ==> product_fits(
                    prices@[i],
                    trades@,
                ),
            forall|i: int|
                0 <= i < pi && #[trigger] prices@[i].date.day >= start_day ==> (ti == trades@.len()
                    || trades@[ti as int].date.day > prices@[i].date.day),
            out@ == points_of(prices@.take(pi as int), trades@, trades@[0].date),
        decreases prices.len() - pi,
    {
        let p = &prices[pi];
        if p.date.day >= start_day {
            while ti < trades.len() && trades[ti].date.day <= p.date.day
                invariant
                    ti <= trades.len(),
                    position as int == amount_sum(trades@.take(ti as int)),
                    forall|k: int|
                        0 <= k <= ti ==> i64::MIN as int <= #[trigger] amount_sum(
                            trades@.take(k),
                        ) <= i64::MAX as int,
                    ti > 0 ==> trades@[ti - 1].date.day <= p.date.day,
                decreases trades.len() - ti,
            {
                proof {
                    assert(trades@.take(ti + 1).drop_last() =~= trades@.take(ti as int));
                    assert(trades@.take(ti + 1).last() == trades@[ti as int]);
                }
                match position.checked_add(trades[ti].amount) {
                    Some(s) => {
                        position = s;
                    },
                    None => {
                        proof {
                            let k: int = ti as int + 1;
                            assert(prices@[pi as int].date.day <= prices@[prices@.len()
                                - 1].date.day);
                            assert(trades@[k - 1].date.day <= end.day);
                            assert(amount_sum(trades@.take(k)) == position as int
                                + trades@[ti as int].amount as int);
                            assert(!(i64::MIN as int <= amount_sum(trades@.take(k))
                                <= i64::MAX as int));
                            assert(!positions_fit(trades@, end));
                            assert(!fits(prices@, trades@));
                            assert(build_spec(prices@, trades@) == Err::<
                                Seq<Portfolio>,
                                BuildError,
                            >(BuildError::ValueOverflow));
                        }
                        return Err(BuildError::ValueOverflow);
                    },
                }
                ti += 1;
            }
            proof {
                assert forall|i: int| 0 <= i < ti implies #[trigger] trades@[i].date.day
                    <= p.date.day by {
                    if i < ti - 1 {
                        assert(trades@[i].date.day <= trades@[ti - 1].date.day);
                    }
                }
                lemma_position_split(trades@, p.date, ti as int);
            }
            match p.price.mantissa.checked_mul(position as i128) {
                Some(m) => {
                    out.push(
                        Portfolio {
                            date: p.date,
                            amount_in_euros: Decimal { mantissa: m, scale: p.price.scale },
                        },
                    );
                    proof {
                        let i: int = pi as int;
                        assert(position_through(trades@, prices@[i].date) == position as int);
                        assert(m as int == prices@[i].price.mantissa as int * position_through(
                            trades@,
                            prices@[i].date,
                        ));
                        assert(prices@.take(i + 1).drop_last() =~= prices@.take(i));
                        assert(prices@.take(i + 1).last() == prices@[i]);
                        assert(out@ == points_of(prices@.take(i + 1), trades@, trades@[0].date));
                        assert forall|j: int|
                            0 <= j < pi + 1 && #[trigger] prices@[j].date.day
                                >= start_day implies product_fits(prices@[j], trades@) by {
                            if j < i {
                                assert(product_fits(prices@[j], trades@));
                            } else {
                                assert(i128::MIN as int <= prices@[i].price.mantissa as int
                                    * position_through(trades@, prices@[i].date)
                                    <= i128::MAX as int);
                            }
                        }
                        assert forall|j: int|
                            0 <= j < pi + 1 && #[trigger] prices@[j].date.day
                                >= start_day implies (ti == trades@.len() || trades@[ti as int].date.day
                                > prices@[j].date.day) by {
                            if j < i {
                                assert(prices@[j].date.day < prices@[i].date.day);
                            }
                        }
                    }
                },
                None => {
                    proof {
                        let i: int = pi as int;
                        assert(position_through(trades@, prices@[i].date) == position as int);
                        assert(!(i128::MIN as int <= prices@[i].price.mantissa as int
                            * position_through(trades@, prices@[i].date) <= i128::MAX as int));
                        assert(!product_fits(prices@[i], trades@));
                        assert(prices@[i].date.day >= trades@[0].date.day);
                        assert(!fits(prices@, trades@));
                        assert(build_spec(prices@, trades@) == Err::<Seq<Portfolio>, BuildError>(
                            BuildError::ValueOverflow,
                        ));
                    }
                    return Err(BuildError::ValueOverflow);
                },
            }
        } else {
            proof {
                assert(prices@.take(pi + 1).drop_last() =~= prices@.take(pi as int));
                assert(prices@.take(pi + 1).last() == prices@[pi as int]);
            }
        }
        pi += 1;
    }
    proof {
        assert(prices@.take(prices@.len() as int) =~= prices@);
        assert forall|k: int|
            0 < k <= trades@.len() && #[trigger] trades@[k - 1].date.day
                <= end.day implies i64::MIN as int <= #[trigger] amount_sum(trades@.take(k))
            <= i64::MAX as int by {
            if start_day <= end.day {
                assert(prices@[prices@.len() - 1].date.day >= start_day);
                assert(ti == trades@.len() || trades@[ti as int].date.day > prices@[prices@.len()
                    - 1].date.day);
                if ti < trades@.len() && k - 1 >= ti {
                    assert(trades@[ti as int].date.day <= trades@[k - 1].date.day);
                    assert(false);
                }
                assert(k <= ti);
            } else {
                assert(trades@[0].date.day <= trades@[k - 1].date.day);
                assert(false);
            }
        }
        assert(positions_fit(trades@, end));
        assert(fits(prices@, trades@));
        assert(build_spec(prices@, trades@) == Ok::<Seq<Portfolio>, BuildError>(out@));
    }
    Ok(out)
}

/// `x` is the valuation point of one of the prices in `ps` dated on or
/// after `start`.
pub open spec fn is_point_of_some(
    ps: Seq<DailyPrice>,
    ts: Seq<TradeForCalculation>,
    start: Date,
    x: Portfolio,
) -> bool {
    exists|p: int|
        0 <= p < ps.len() && ps[p].date.day >= start.day && x == #[trigger] point_of(ps[p], ts)
}

/// The point of price `p` appears somewhere in `out`.
pub open spec fn point_appears(
    out: Seq<Portfolio>,
    ps: Seq<DailyPrice>,
    ts: Seq<TradeForCalculation>,
    p: int,
) -> bool {
    exists|i: int| 0 <= i < out.len() && #[trigger] out[i] == point_of(ps[p], ts)
}

proof fn lemma_points_of_shape(ps: Seq<DailyPrice>, ts: Seq<TradeForCalculation>, start: Date)
    requires
        prices_sorted(ps),
    ensures
        ({
            let out = points_of(ps, ts, start);
            &&& forall|i: int|
                0 <= i < out.len() ==> is_point_of_some(ps, ts, start, #[trigger] out[i])
            &&& forall|i: int| 0 <= i < out.len() ==> #[trigger] out[i].date.day >= start.day
            &&& forall|i: int, j: int|
                0 <= i < j < out.len() ==> #[trigger] out[i].date.day < #[trigger] out[j].date.day
            &&& forall|i: int|
                ps.len() > 0 && 0 <= i < out.len() ==> #[trigger] out[i].date.day
                    <= ps[ps.len() - 1].date.day
        }),
    decreases ps.len(),
{
    if ps.len() == 0 {
    } else {
        let rest = ps.drop_last();
        assert forall|a: int, b: int| 0 <= a < b < rest.len() implies #[trigger] rest[a].date.day
            < #[trigger] rest[b].date.day by {
            assert(ps[a].date.day < ps[b].date.day);
        }
        lemma_points_of_shape(rest, ts, start);
        let prev = points_of(rest, ts, start);
        assert forall|i: int| 0 <= i < prev.len() implies is_point_of_some(
            ps,
            ts,
            start,
            #[trigger] prev[i],
        ) by {
            let p0 = choose|p: int|
                0 <= p < rest.len() && rest[p].date.day >= start.day && prev[i]
                    == #[trigger] point_of(rest[p], ts);
            assert(rest[p0] == ps[p0]);
            assert(prev[i] == point_of(ps[p0], ts));
        }
        if ps.last().date.day >= start.day {
            let out = points_of(ps, ts, start);
            assert(out == prev.push(point_of(ps.last(), ts)));
            assert forall|i: int| 0 <= i < out.len() implies is_point_of_some(
                ps,
                ts,
                start,
                #[trigger] out[i],
            ) by {
                if i < out.len() - 1 {
                    assert(out[i] == prev[i]);
                } else {
                    assert(out[i] == point_of(ps[ps.len() - 1], ts));
                }
            }
            assert forall|i: int, j: int|
                0 <= i < j < out.len() implies #[trigger] out[i].date.day
                < #[trigger] out[j].date.day by {
                if j < out.len() - 1 {
                    assert(prev[i].date.day < prev[j].date.day);
                } else {
                    if rest.len() > 0 && i < out.len() - 1 {
                        assert(out[i].date.day <= rest[rest.len() - 1].date.day);
                        assert(rest[rest.len() - 1].date.day < ps[ps.len() - 1].date.day);
                    }
                }
            }
        }
    }
}

proof fn lemma_points_of_complete(ps: Seq<DailyPrice>, ts: Seq<TradeForCalculation>, start: Date)
    ensures
        forall|p: int|
            0 <= p < ps.len() && #[trigger] ps[p].date.day >= start.day ==> point_appears(
                points_of(ps, ts, start),
                ps,
                ts,
                p,
            ),
    decreases ps.len(),
{
    if ps.len() == 0 {
    } else {
        let rest = ps.drop_last();
        lemma_points_of_complete(rest, ts, start);
        let prev = points_of(rest, ts, start);
        let out = points_of(ps, ts, start);
        assert forall|p: int|
            0 <= p < ps.len() && #[trigger] ps[p].date.day >= start.day implies point_appears(
            out,
            ps,
            ts,
            p,
        ) by {
            if p < ps.len() - 1 {
                assert(rest[p] == ps[p]);
                assert(point_appears(prev, rest, ts, p));
                let i0 = choose|i: int| 0 <= i < prev.len() && #[trigger] prev[i] == point_of(
                    rest[p],
                    ts,
                );
                if ps.last().date.day >= start.day {
                    assert(out == prev.push(point_of(ps.last(), ts)));
                }
                assert(out[i0] == point_of(ps[p], ts));
            } else {
                assert(out[out.len() - 1] == point_of(ps[p], ts));
            }
        }
    }
}

/// Law: whenever the builder accepts non-empty input, the output dates are
/// strictly ascending, each one is the date of an actual stored price
/// observation, none lies before the first trade's day or after the last
/// priced day, and every priced day on or after the first trade's day does
/// appear.
pub proof fn lemma_output_dates(ps: Seq<DailyPrice>, ts: Seq<TradeForCalculation>, out: Seq<
    Portfolio,
>)
    requires
        ps.len() > 0,
        ts.len() > 0,
        build_spec(ps, ts) == Ok::<Seq<Portfolio>, BuildError>(out),
    ensures
        forall|i: int, j: int|
            0 <= i < j < out.len() ==> #[trigger] out[i].date.day < #[trigger] out[j].date.day,
        forall|i: int|
            0 <= i < out.len() ==> is_point_of_some(ps, ts, ts[0].date, #[trigger] out[i]),
        forall|i: int|
            0 <= i < out.len() ==> ts[0].date.day <= #[trigger] out[i].date.day <= ps[ps.len()
                - 1].date.day,
        forall|p: int|
            0 <= p < ps.len() && #[trigger] ps[p].date.day >= ts[0].date.day ==> point_appears(
                out,
                ps,
                ts,
                p,
            ),
{
    assert(prices_sorted(ps));
    let start = ts[0].date;
    lemma_points_of_shape(ps, ts, start);
    lemma_points_of_complete(ps, ts, start);
    assert(out == points_of(ps, ts, start));
}

/// `x` carries, for some price in `ps`, exactly that day's close times the
/// position through that day — the multiplication did not truncate.
pub open spec fn exact_point_of_some(
    ps: Seq<DailyPrice>,
    ts: Seq<TradeForCalculation>,
    x: Portfolio,
) -> bool {
    exists|p: int|
        0 <= p < ps.len() && x.date == #[trigger] ps[p].date && x.amount_in_euros.scale
            == ps[p].price.scale && x.amount_in_euros.mantissa as int == ps[p].price.mantissa as int
            * position_through(ts, ps[p].date)
}

/// Law: each emitted value is exact — the point for a priced day carries
/// that day's close times the sum of every trade amount dated on or before
/// that day, at the close's own scale. Trades sharing a day are all summed.
pub proof fn lemma_position_law(ps: Seq<DailyPrice>, ts: Seq<TradeForCalculation>, out: Seq<
    Portfolio,
>)
    requires
        ps.len() > 0,
        ts.len() > 0,
        build_spec(ps, ts) == Ok::<Seq<Portfolio>, BuildError>(out),
    ensures
        forall|i: int| 0 <= i < out.len() ==> exact_point_of_some(ps, ts, #[trigger] out[i]),
{
    assert(prices_sorted(ps));
    assert(fits(ps, ts));
    let start = ts[0].date;
    lemma_points_of_shape(ps, ts, start);
    assert(out == points_of(ps, ts, start));
    assert forall|i: int| 0 <= i < out.len() implies exact_point_of_some(
        ps,
        ts,
        #[trigger] out[i],
    ) by {
        let p0 = choose|p: int|
            0 <= p < ps.len() && ps[p].date.day >= start.day && out[i] == #[trigger] point_of(
                ps[p],
                ts,
            );
        assert(product_fits(ps[p0], ts));
        assert(out[i].date == ps[p0].date);
        assert(out[i].amount_in_euros.scale == ps[p0].price.scale);
        assert(out[i].amount_in_euros.mantissa as int == ps[p0].price.mantissa as int
            * position_through(ts, ps[p0].date));
    }
}

/// The prices among `ps` that belong to instrument `t`, in their own order.
pub open spec fn prices_for(ps: Seq<DailyPrice>, t: Seq<char>) -> Seq<DailyPrice>
    decreases ps.len(),
{
    if ps.len() == 0 {
        Seq::empty()
    } else if ps.last().ticker@ == t {
        prices_for(ps.drop_last(), t).push(ps.last())
    } else {
        prices_for(ps.drop_last(), t)
    }
}

/// The trades among `ts` that belong to instrument `t`, in their own order.
pub open spec fn trades_for(ts: Seq<TradeForCalculation>, t: Seq<char>) -> Seq<
    TradeForCalculation,
>
    decreases ts.len(),
{
    if ts.len() == 0 {
        Seq::empty()
    } else if ts.last().ticker@ == t {
        trades_for(ts.drop_last(), t).push(ts.last())
    } else {
        trades_for(ts.drop_last(), t)
    }
}

#[verifier::loop_isolation(false)]
fn filter_prices(ps: &Vec<DailyPrice>, t: &String) -> (out: Vec<DailyPrice>)
    ensures
        out@ == prices_for(ps@, t@),
{
    let mut out: Vec<DailyPrice> = Vec::new();
    let mut i: usize = 0;
    while i < ps.len()
        invariant
            i <= ps.len(),
            out@ == prices_for(ps@.take(i as int), t@),
        decreases ps.len() - i,
    {
        if ps[i].ticker == *t {
            out.push(ps[i].clone());
        }
        proof {
            assert(ps@.take(i + 1).drop_last() =~= ps@.take(i as int));
            assert(ps@.take(i + 1).last() == ps@[i as int]);
        }
        i += 1;
    }
    proof {
        assert(ps@.take(ps@.len() as int) =~= ps@);
    }
    out
}

#[verifier::loop_isolation(false)]
fn filter_trades(ts: &Vec<TradeForCalculation>, t: &String) -> (out: Vec<TradeForCalculation>)
    ensures
        out@ == trades_for(ts@, t@),
{
    let mut out: Vec<TradeForCalculation> = Vec::new();
    let mut i: usize = 0;
    while i < ts.len()
        invariant
            i <= ts.len(),
            out@ == trades_for(ts@.take(i as int), t@),
        decreases ts.len() - i,
    {
        if ts[i].ticker == *t {
            out.push(ts[i].clone());
        }
        proof {
            assert(ts@.take(i + 1).drop_last() =~= ts@.take(i as int));
            assert(ts@.take(i + 1).last() == ts@[i as int]);
        }
        i += 1;
    }
    proof {
        assert(ts@.take(ts@.len() as int) =~= ts@);
    }
    out
}

/// `x` is one of the rows of `ps`.
pub open spec fn occurs_in_prices(ps: Seq<DailyPrice>, x: DailyPrice) -> bool {
    exists|k: int| 0 <= k < ps.len() && #[trigger] ps[k] == x
}

/// `x` is one of the rows of `ts`.
pub open spec fn occurs_in_trades(ts: Seq<TradeForCalculation>, x: TradeForCalculation) -> bool {
    exists|k: int| 0 <= k < ts.len() && #[trigger] ts[k] == x
}

proof fn lemma_prices_for_membership(ps: Seq<DailyPrice>, t: Seq<char>)
    ensures
        forall|i: int|
            0 <= i < prices_for(ps, t).len() ==> (#[trigger] prices_for(ps, t)[i]).ticker@ == t
                && occurs_in_prices(ps, prices_for(ps, t)[i]),
    decreases ps.len(),
{
    if ps.len() > 0 {
        let rest = ps.drop_last();
        lemma_prices_for_membership(rest, t);
        let f = prices_for(ps, t);
        let fr = prices_for(rest, t);
        assert forall|i: int| 0 <= i < f.len() implies (#[trigger] f[i]).ticker@ == t
            && occurs_in_prices(ps, f[i]) by {
            if ps.last().ticker@ == t && i == f.len() - 1 {
                assert(ps[ps.len() - 1] == f[i]);
            } else {
                assert(f[i] == fr[i]);
                let k0 = choose|k: int| 0 <= k < rest.len() && #[trigger] rest[k] == fr[i];
                assert(ps[k0] == f[i]);
            }
        }
    }
}

proof fn lemma_trades_for_membership(ts: Seq<TradeForCalculation>, t: Seq<char>)
    ensures
        forall|i: int|
            0 <= i < trades_for(ts, t).len() ==> (#[trigger] trades_for(ts, t)[i]).ticker@ == t
                && occurs_in_trades(ts, trades_for(ts, t)[i]),
    decreases ts.len(),
{
    if ts.len() > 0 {
        let rest = ts.drop_last();
        lemma_trades_for_membership(rest, t);
        let f = trades_for(ts, t);
        let fr = trades_for(rest, t);
        assert forall|i: int| 0 <= i < f.len() implies (#[trigger] f[i]).ticker@ == t
            && occurs_in_trades(ts, f[i]) by {
            if ts.last().ticker@ == t && i == f.len() - 1 {
                assert(ts[ts.len() - 1] == f[i]);
            } else {
                assert(f[i] == fr[i]);
                let k0 = choose|k: int| 0 <= k < rest.len() && #[trigger] rest[k] == fr[i];
                assert(ts[k0] == f[i]);
            }
        }
    }
}

/// Law: when the full lists come ascending by date — strictly so between
/// two price rows of the same instrument, as one row per (ticker, day)
/// gives — then every instrument's slice meets the valuation builder's
/// order preconditions.
pub proof fn lemma_fan_out_slices_sorted(
    ps: Seq<DailyPrice>,
    ts: Seq<TradeForCalculation>,
    t: Seq<char>,
)
    requires
        forall|i: int, j: int|
            0 <= i < j < ps.len() && (#[trigger] ps[i]).ticker@ == (#[trigger] ps[j]).ticker@
                ==> ps[i].date.day < ps[j].date.day,
        trades_sorted(ts),
    ensures
        prices_sorted(prices_for(ps, t)),
        trades_sorted(trades_for(ts, t)),
    decreases ps.len() + ts.len(),
{
    if ps.len() > 0 {
        let rest = ps.drop_last();
        assert forall|i: int, j: int|
            0 <= i < j < rest.len() && (#[trigger] rest[i]).ticker@
                == (#[trigger] rest[j]).ticker@ implies rest[i].date.day < rest[j].date.day by {
            assert(ps[i].ticker@ == ps[j].ticker@);
        }
        lemma_fan_out_slices_sorted(rest, ts, t);
        lemma_prices_for_membership(rest, t);
        let f = prices_for(ps, t);
        let fr = prices_for(rest, t);
        if ps.last().ticker@ == t {
            assert(f == fr.push(ps.last()));
            assert forall|i: int, j: int| 0 <= i < j < f.len() implies #[trigger] f[i].date.day
                < #[trigger] f[j].date.day by {
                if j < f.len() - 1 {
                    assert(fr[i].date.day < fr[j].date.day);
                } else {
                    assert(f[i] == fr[i]);
                    let k0 = choose|k: int| 0 <= k < rest.len() && #[trigger] rest[k] == fr[i];
                    assert(ps[k0].ticker@ == ps[ps.len() - 1].ticker@);
                    assert(ps[k0].date.day < ps[ps.len() - 1].date.day);
                }
            }
        }
    } else if ts.len() > 0 {
        let rest = ts.drop_last();
        assert forall|i: int, j: int| 0 <= i < j < rest.len() implies #[trigger] rest[i].date.day
            <= #[trigger] rest[j].date.day by {
            assert(ts[i].date.day <= ts[j].date.day);
        }
        lemma_fan_out_slices_sorted(ps, rest, t);
        lemma_trades_for_membership(rest, t);
        let f = trades_for(ts, t);
        let fr = trades_for(rest, t);
        if ts.last().ticker@ == t {
            assert(f == fr.push(ts.last()));
            assert forall|i: int, j: int| 0 <= i < j < f.len() implies #[trigger] f[i].date.day
                <= #[trigger] f[j].date.day by {
                if j < f.len() - 1 {
                    assert(fr[i].date.day <= fr[j].date.day);
                } else {
                    assert(f[i] == fr[i]);
                    let k0 = choose|k: int| 0 <= k < rest.len() && #[trigger] rest[k] == fr[i];
                    assert(ts[k0].date.day <= ts[ts.len() - 1].date.day);
                }
            }
        }
    }
}

/// What one instrument's slice of the full lists builds to.
pub open spec fn ticker_build(
    ps: Seq<DailyPrice>,
    ts: Seq<TradeForCalculation>,
    t: Seq<char>,
) -> Result<Seq<Portfolio>, BuildError> {
    build_spec(prices_for(ps, t), trades_for(ts, t))
}

/// The per-ticker fan-out: partition the full price and trade lists by
/// instrument and run the valuation builder once per configured ticker.
/// Each instrument's series stands alone; on the first instrument whose
/// slice the builder refuses, that error is handed back unchanged.
#[verifier::loop_isolation(false)]
pub fn generate_portfolio(
    tickers: &Vec<String>,
    prices: &Vec<DailyPrice>,
    trades: &Vec<TradeForCalculation>,
) -> (r: Result<Vec<(String, Vec<Portfolio>)>, BuildError>)
    ensures
        match r {
            Ok(out) => {
                &&& out@.len() == tickers@.len()
                &&& forall|i: int|
                    0 <= i < tickers@.len() ==> (#[trigger] out@[i]).0@ == tickers@[i]@
                &&& forall|i: int|
                    0 <= i < tickers@.len() ==> ticker_build(prices@, trades@, tickers@[i]@)
                        == Ok::<Seq<Portfolio>, BuildError>((#[trigger] out@[i]).1@)
            },
            Err(e) => exists|i: int|
                0 <= i < tickers@.len() && #[trigger] ticker_build(prices@, trades@, tickers@[i]@)
                    == Err::<Seq<Portfolio>, BuildError>(e) && (forall|j: int|
                    0 <= j < i ==> (#[trigger] ticker_build(prices@, trades@, tickers@[j]@)) is Ok),
        },
{
    let mut out: Vec<(String, Vec<Portfolio>)> = Vec::new();
    let mut k: usize = 0;
    while k < tickers.len()
        invariant
            k <= tickers.len(),
            out@.len() == k as int,
            forall|i: int| 0 <= i < k ==> (#[trigger] out@[i]).0@ == tickers@[i]@,
            forall|i: int|
                0 <= i < k ==> ticker_build(prices@, trades@, tickers@[i]@) == Ok::<
                    Seq<Portfolio>,
                    BuildError,
                >((#[trigger] out@[i]).1@),
        decreases tickers.len() - k,
    {
        let tp = filter_prices(prices, &tickers[k]);
        let tt = filter_trades(trades, &tickers[k]);
        match build_portfolio(&tp, &tt) {
            Ok(points) => {
                out.push((tickers[k].clone(), points));
            },
            Err(e) => {
                proof {
                    let i: int = k as int;
                    assert(ticker_build(prices@, trades@, tickers@[i]@) == Err::<
                        Seq<Portfolio>,
                        BuildError,
                    >(e));
                    assert forall|j: int| 0 <= j < i implies (#[trigger] ticker_build(
                        prices@,
                        trades@,
                        tickers@[j]@,
                    )) is Ok by {
                        assert(ticker_build(prices@, trades@, tickers@[j]@) == Ok::<
                            Seq<Portfolio>,
                            BuildError,
                        >(out@[j].1@));
                    }
                }
                return Err(e);
            },
        }
        k += 1;
    }
    Ok(out)
}

} // verus!
