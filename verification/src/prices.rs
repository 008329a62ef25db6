use vstd::prelude::*;

use crate::date::{date_num_of, parse_date, Date};
use crate::decimal::{dec_parts_of, parse_decimal};
use crate::portfolio::DailyPrice;

verus! {

/// One row of the provider's daily time series as fetched: the calendar
/// day as a `YYYY-MM-DD` string and the close as a decimal string, both
/// kept verbatim for the price store.
pub struct FetchedPrice {
    pub date: String,
    pub price: String,
}

impl Clone for FetchedPrice {
    fn clone(&self) -> (r: Self)
        ensures
            r == *self,
    {
        FetchedPrice { date: self.date.clone(), price: self.price.clone() }
    }
}

/// A price row as the price store returns it: strings straight from
/// storage, one row per (ticker, day).
pub struct PriceRow {
    pub ticker: String,
    pub date: String,
    pub price: String,
}

/// Why a stored or fetched row was refused. A malformed row is fatal for
/// the whole operation that read it; nothing is skipped silently.
#[derive(Clone, Copy, PartialEq, Eq, Structural, Debug)]
pub enum RowError {
    /// A date field does not read as a `YYYY-MM-DD` calendar date.
    InvalidDate,
    /// A price field does not read as a decimal number.
    InvalidPrice,
}

/// Whether the gap-filler keeps fetched row `r`: its date must read as a
/// calendar day strictly after the last stored day, or after nothing when
/// no day is stored yet.
pub open spec fn row_is_new(r: FetchedPrice, last: Option<Date>) -> bool {
    match date_num_of(r.date@) {
        Some(n) => match last {
            Some(d) => n > d.day as int,
            None => true,
        },
        None => false,
    }
}

/// Every fetched row's date reads as a calendar day.
pub open spec fn row_dates_parse(rows: Seq<FetchedPrice>) -> bool {
    forall|i: int| 0 <= i < rows.len() ==> (date_num_of(#[trigger] rows[i].date@)) is Some
}

/// The rows the gap-filler inserts: those strictly newer than the last
/// stored day, in the order they came.
pub open spec fn select_spec(rows: Seq<FetchedPrice>, last: Option<Date>) -> Seq<FetchedPrice>
    decreases rows.len(),
{
    if rows.len() == 0 {
        Seq::empty()
    } else if row_is_new(rows.last(), last) {
        select_spec(rows.drop_last(), last).push(rows.last())
    } else {
        select_spec(rows.drop_last(), last)
    }
}

/// The gap-filler's selection: keep exactly the fetched rows dated
/// strictly after the last stored day, so that inserting them twice is
/// impossible. One unreadable date aborts the whole refresh for this
/// instrument.
#[verifier::loop_isolation(false)]
pub fn select_new_prices(rows: &Vec<FetchedPrice>, last: Option<Date>) -> (r: Result<
    Vec<FetchedPrice>,
    RowError,
>)
    ensures
        match r {
            Ok(out) => row_dates_parse(rows@) && out@ == select_spec(rows@, last),
            Err(e) => e == RowError::InvalidDate && !row_dates_parse(rows@),
        },
{
    let mut out: Vec<FetchedPrice> = Vec::new();
    let mut i: usize = 0;
    while i < rows.len()
        invariant
            i <= rows.len(),
            forall|k: int| 0 <= k < i ==> (date_num_of(#[trigger] rows@[k].date@)) is Some,
            out@ == select_spec(rows@.take(i as int), last),
        decreases rows.len() - i,
    {
        proof {
            assert(rows@.take(i + 1).drop_last() =~= rows@.take(i as int));
            assert(rows@.take(i + 1).last() == rows@[i as int]);
        }
        match parse_date(rows[i].date.as_str()) {
            Some(d) => {
                let keep: bool = match last {
                    Some(l) => d.day > l.day,
                    None => true,
                };
                if keep {
                    out.push(rows[i].clone());
                }
            },
            None => {
                proof {
                    assert(!row_dates_parse(rows@));
                }
                return Err(RowError::InvalidDate);
            },
        }
        i += 1;
    }
    proof {
        assert(rows@.take(rows@.len() as int) =~= rows@);
    }
    Ok(out)
}

/// The provider request size: the full history, or only the recent
/// "compact" window when the stored history already reaches to within 100
/// calendar days of today. A size hint only — correctness never depends on
/// it.
#[derive(Clone, Copy, PartialEq, Eq, Structural, Debug)]
pub enum OutputSize {
    Full,
    Compact,
}

/// Choose the request size from the last stored day and today's day.
pub fn choose_output_size(last: Option<Date>, today: Date) -> (r: OutputSize)
    requires
        today.day >= i64::MIN + 100,
    ensures
        r == (match last {
            Some(d) => if d.day > today.day - 100 {
                OutputSize::Compact
            } else {
                OutputSize::Full
            },
            None => OutputSize::Full,
        }),
{
    match last {
        Some(d) => if d.day > today.day - 100 {
            OutputSize::Compact
        } else {
            OutputSize::Full
        },
        None => OutputSize::Full,
    }
}

/// Every row of `rows` whose date reads as a calendar day is dated on or
/// before day `cap`.
pub open spec fn dates_at_most(rows: Seq<FetchedPrice>, cap: int) -> bool {
    forall|i: int|
        0 <= i < rows.len() ==> match date_num_of(#[trigger] rows[i].date@) {
            Some(n) => n <= cap,
            None => true,
        }
}

/// Law (gap-filler idempotence): after one pass, the store's last day
/// `last2` is at least the old last day and at least every day the pass
/// kept; selecting from the same provider rows again then keeps nothing,
/// so a second refresh inserts zero additional rows.
pub proof fn lemma_gap_filler_idempotent(
    rows: Seq<FetchedPrice>,
    last1: Option<Date>,
    last2: Date,
)
    requires
        match last1 {
            Some(d) => d.day <= last2.day,
            None => true,
        },
        dates_at_most(select_spec(rows, last1), last2.day as int),
    ensures
        select_spec(rows, Some(last2)).len() == 0,
    decreases rows.len(),
{
    if rows.len() > 0 {
        let rest = rows.drop_last();
        let r = rows.last();
        let kept = select_spec(rows, last1);
        if row_is_new(r, last1) {
            assert(kept == select_spec(rest, last1).push(r));
            assert forall|i: int| 0 <= i < select_spec(rest, last1).len() implies match
                date_num_of(#[trigger] select_spec(rest, last1)[i].date@) {
                Some(n) => n <= last2.day as int,
                None => true,
            } by {
                assert(select_spec(rest, last1)[i] == kept[i]);
            }
            assert(kept[kept.len() - 1] == r);
            assert(!row_is_new(r, Some(last2)));
        } else {
            assert(kept == select_spec(rest, last1));
            assert(!row_is_new(r, Some(last2)));
        }
        lemma_gap_filler_idempotent(rest, last1, last2);
    }
}

/// Row `rw` reads cleanly: its date as a calendar day, its price as a
/// decimal whose mantissa fits the machine type.
pub open spec fn price_row_ok(rw: PriceRow) -> bool {
    date_num_of(rw.date@) is Some && dec_parts_of(rw.price@) is Some
}

/// `d` is row `rw` read into the valuation's own types.
pub open spec fn parsed_price(rw: PriceRow, d: DailyPrice) -> bool {
    &&& d.ticker@ == rw.ticker@
    &&& date_num_of(rw.date@) == Some(d.date.day as int)
    &&& dec_parts_of(rw.price@) == Some((d.price.mantissa, d.price.scale))
}

/// Read the price store's rows into the valuation's own types, row for
/// row. The first malformed row aborts the whole read with the field that
/// failed; nothing is skipped silently.
#[verifier::loop_isolation(false)]
pub fn parse_price_rows(rows: &Vec<PriceRow>) -> (r: Result<Vec<DailyPrice>, RowError>)
    ensures
        match r {
            Ok(out) => out@.len() == rows@.len() && forall|i: int|
                0 <= i < rows@.len() ==> parsed_price(#[trigger] rows@[i], out@[i]),
            Err(e) => exists|i: int|
                0 <= i < rows@.len() && !price_row_ok(#[trigger] rows@[i]) && (forall|j: int|
                    0 <= j < i ==> price_row_ok(#[trigger] rows@[j])) && e == (if date_num_of(
                    rows@[i].date@,
                ) is None {
                    RowError::InvalidDate
                } else {
                    RowError::InvalidPrice
                }),
        },
{
    let mut out: Vec<DailyPrice> = Vec::new();
    let mut i: usize = 0;
    while i < rows.len()
        invariant
            i <= rows.len(),
            out@.len() == i as int,
            forall|k: int| 0 <= k < i ==> parsed_price(#[trigger] rows@[k], out@[k]),
            forall|k: int| 0 <= k < i ==> price_row_ok(#[trigger] rows@[k]),
        decreases rows.len() - i,
    {
        let d = match parse_date(rows[i].date.as_str()) {
            Some(d) => d,
            None => {
                proof {
                    let w: int = i as int;
                    assert(!price_row_ok(rows@[w]));
                }
                return Err(RowError::InvalidDate);
            },
        };
        let price = match parse_decimal(rows[i].price.as_str()) {
            Some(p) => p,
            None => {
                proof {
                    let w: int = i as int;
                    assert(!price_row_ok(rows@[w]));
                }
                return Err(RowError::InvalidPrice);
            },
        };
        out.push(DailyPrice { date: d, price, ticker: rows[i].ticker.clone() });
        i += 1;
    }
    Ok(out)
}

} // verus!
