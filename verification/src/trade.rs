use vstd::prelude::*;

use crate::date::{date_num_of, parse_date};
use crate::portfolio::TradeForCalculation;
use crate::prices::RowError;

verus! {

/// A trade as a caller records it: which instrument, on which calendar day
/// (`YYYY-MM-DD`), whether it was a buy or a sell, how many units, and the
/// price paid per unit as a decimal string. The price is kept for audit
/// only; the valuation never reads it.
pub struct CreateTrade {
    pub ticker: String,
    pub date: String,
    pub kind: String,
    pub amount: u32,
    pub price: String,
}

/// A stored trade as the trade store lists it back, with its row id.
pub struct ListTrade {
    pub id: i64,
    pub ticker: String,
    pub date: String,
    pub kind: String,
    pub amount: i64,
    pub price: String,
}

/// A trade row as the trade store returns it for the valuation: the date
/// still a string straight from storage.
pub struct TradeRow {
    pub ticker: String,
    pub date: String,
    pub amount: i64,
}

/// Row `rw`'s date reads as a calendar day.
pub open spec fn trade_row_ok(rw: TradeRow) -> bool {
    date_num_of(rw.date@) is Some
}

/// `t` is row `rw` read into the valuation's own types.
pub open spec fn parsed_trade(rw: TradeRow, t: TradeForCalculation) -> bool {
    &&& t.ticker@ == rw.ticker@
    &&& date_num_of(rw.date@) == Some(t.date.day as int)
    &&& t.amount == rw.amount
}

/// Read the trade store's rows into the valuation's own types, row for
/// row. The first row whose date does not read as a calendar day aborts
/// the whole read; nothing is skipped silently.
#[verifier::loop_isolation(false)]
pub fn parse_trade_rows(rows: &Vec<TradeRow>) -> (r: Result<Vec<TradeForCalculation>, RowError>)
    ensures
        match r {
            Ok(out) => out@.len() == rows@.len() && forall|i: int|
                0 <= i < rows@.len() ==> parsed_trade(#[trigger] rows@[i], out@[i]),
            Err(e) => e == RowError::InvalidDate && exists|i: int|
                0 <= i < rows@.len() && !trade_row_ok(#[trigger] rows@[i]) && (forall|j: int|
                    0 <= j < i ==> trade_row_ok(#[trigger] rows@[j])),
        },
{
    let mut out: Vec<TradeForCalculation> = Vec::new();
    let mut i: usize = 0;
    while i < rows.len()
        invariant
            i <= rows.len(),
            out@.len() == i as int,
            forall|k: int| 0 <= k < i ==> parsed_trade(#[trigger] rows@[k], out@[k]),
            forall|k: int| 0 <= k < i ==> trade_row_ok(#[trigger] rows@[k]),
        decreases rows.len() - i,
    {
        let d = match parse_date(rows[i].date.as_str()) {
            Some(d) => d,
            None => {
                proof {
                    let w: int = i as int;
                    assert(!trade_row_ok(rows@[w]));
                }
                return Err(RowError::InvalidDate);
            },
        };
        out.push(TradeForCalculation { date: d, amount: rows[i].amount, ticker: rows[i].ticker.clone() });
        i += 1;
    }
    Ok(out)
}

} // verus!
