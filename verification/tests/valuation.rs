use chrono::Datelike;

use portfolio_tracker::date::Date;
use portfolio_tracker::decimal::Decimal;
use portfolio_tracker::portfolio::{
    build_portfolio, generate_portfolio, BuildError, DailyPrice, Portfolio, TradeForCalculation,
};

fn day(y: i32, m: u32, d: u32) -> i64 {
    chrono::NaiveDate::from_ymd_opt(y, m, d).unwrap().num_days_from_ce() as i64
}

fn price(day: i64, mantissa: i128, scale: i64, ticker: &str) -> DailyPrice {
    DailyPrice {
        date: Date { day },
        price: Decimal { mantissa, scale },
        ticker: ticker.to_string(),
    }
}

fn trade(day: i64, amount: i64, ticker: &str) -> TradeForCalculation {
    TradeForCalculation { date: Date { day }, amount, ticker: ticker.to_string() }
}

fn point(day: i64, mantissa: i128, scale: i64) -> Portfolio {
    Portfolio { date: Date { day }, amount_in_euros: Decimal { mantissa, scale } }
}

#[test]
fn consecutive_prices_value_every_day() {
    let trades = vec![trade(day(2021, 1, 4), 10, "IWDA.AMS")];
    let prices = vec![
        price(day(2021, 1, 4), 1000, 2, "IWDA.AMS"),
        price(day(2021, 1, 5), 1100, 2, "IWDA.AMS"),
        price(day(2021, 1, 6), 1200, 2, "IWDA.AMS"),
    ];
    let out = build_portfolio(&prices, &trades).unwrap();
    assert_eq!(
        out,
        vec![
            point(day(2021, 1, 4), 10000, 2),
            point(day(2021, 1, 5), 11000, 2),
            point(day(2021, 1, 6), 12000, 2),
        ]
    );
}

#[test]
fn price_gap_emits_nothing_for_the_missing_day() {
    let trades = vec![trade(day(2021, 1, 4), 10, "IWDA.AMS")];
    let prices = vec![
        price(day(2021, 1, 4), 1000, 2, "IWDA.AMS"),
        price(day(2021, 1, 6), 1200, 2, "IWDA.AMS"),
    ];
    let out = build_portfolio(&prices, &trades).unwrap();
    assert_eq!(out, vec![point(day(2021, 1, 4), 10000, 2), point(day(2021, 1, 6), 12000, 2)]);
}

#[test]
fn trade_after_last_price_never_affects_output() {
    let trades =
        vec![trade(day(2021, 1, 4), 10, "IWDA.AMS"), trade(day(2021, 1, 10), 5, "IWDA.AMS")];
    let prices = vec![
        price(day(2021, 1, 4), 1000, 2, "IWDA.AMS"),
        price(day(2021, 1, 5), 1100, 2, "IWDA.AMS"),
        price(day(2021, 1, 6), 1200, 2, "IWDA.AMS"),
    ];
    let out = build_portfolio(&prices, &trades).unwrap();
    assert_eq!(
        out,
        vec![
            point(day(2021, 1, 4), 10000, 2),
            point(day(2021, 1, 5), 11000, 2),
            point(day(2021, 1, 6), 12000, 2),
        ]
    );
}

#[test]
fn first_trade_after_last_price_gives_empty_output() {
    let trades = vec![trade(day(2021, 1, 10), 10, "IWDA.AMS")];
    let prices = vec![
        price(day(2021, 1, 4), 1000, 2, "IWDA.AMS"),
        price(day(2021, 1, 6), 1200, 2, "IWDA.AMS"),
    ];
    let out = build_portfolio(&prices, &trades).unwrap();
    assert_eq!(out, vec![]);
}

#[test]
fn empty_trades_or_prices_give_empty_output() {
    let trades = vec![trade(day(2021, 1, 4), 10, "IWDA.AMS")];
    let prices = vec![price(day(2021, 1, 4), 1000, 2, "IWDA.AMS")];
    assert_eq!(build_portfolio(&prices, &vec![]).unwrap(), vec![]);
    assert_eq!(build_portfolio(&vec![], &trades).unwrap(), vec![]);
}

#[test]
fn same_day_trades_are_all_summed() {
    let trades =
        vec![trade(day(2021, 1, 4), 10, "IWDA.AMS"), trade(day(2021, 1, 4), 5, "IWDA.AMS")];
    let prices = vec![price(day(2021, 1, 4), 200, 2, "IWDA.AMS")];
    let out = build_portfolio(&prices, &trades).unwrap();
    assert_eq!(out, vec![point(day(2021, 1, 4), 3000, 2)]);
}

#[test]
fn position_is_the_sum_of_trades_through_each_day() {
    let trades =
        vec![trade(day(2021, 1, 4), 10, "IWDA.AMS"), trade(day(2021, 1, 6), -3, "IWDA.AMS")];
    let prices = vec![
        price(day(2021, 1, 4), 100, 2, "IWDA.AMS"),
        price(day(2021, 1, 7), 200, 2, "IWDA.AMS"),
    ];
    let out = build_portfolio(&prices, &trades).unwrap();
    assert_eq!(out, vec![point(day(2021, 1, 4), 1000, 2), point(day(2021, 1, 7), 1400, 2)]);
}

#[test]
fn output_dates_ascend_within_the_priced_window() {
    let trades = vec![trade(day(2021, 1, 5), 2, "IWDA.AMS")];
    let prices = vec![
        price(day(2021, 1, 4), 100, 2, "IWDA.AMS"),
        price(day(2021, 1, 5), 110, 2, "IWDA.AMS"),
        price(day(2021, 1, 8), 120, 2, "IWDA.AMS"),
        price(day(2021, 1, 11), 130, 2, "IWDA.AMS"),
    ];
    let out = build_portfolio(&prices, &trades).unwrap();
    let price_days: Vec<i64> = prices.iter().map(|p| p.date.day).collect();
    for w in out.windows(2) {
        assert!(w[0].date.day < w[1].date.day);
    }
    for p in &out {
        assert!(price_days.contains(&p.date.day));
        assert!(p.date.day >= day(2021, 1, 5));
        assert!(p.date.day <= day(2021, 1, 11));
    }
    assert_eq!(out.len(), 3);
}

#[test]
fn unsorted_prices_are_refused() {
    let trades = vec![trade(day(2021, 1, 4), 10, "IWDA.AMS")];
    let prices = vec![
        price(day(2021, 1, 6), 1200, 2, "IWDA.AMS"),
        price(day(2021, 1, 4), 1000, 2, "IWDA.AMS"),
    ];
    assert_eq!(build_portfolio(&prices, &trades), Err(BuildError::UnsortedPrices));
}

#[test]
fn duplicate_price_dates_are_refused() {
    let trades = vec![trade(day(2021, 1, 4), 10, "IWDA.AMS")];
    let prices = vec![
        price(day(2021, 1, 4), 1000, 2, "IWDA.AMS"),
        price(day(2021, 1, 4), 1100, 2, "IWDA.AMS"),
    ];
    assert_eq!(build_portfolio(&prices, &trades), Err(BuildError::UnsortedPrices));
}

#[test]
fn unsorted_trades_are_refused() {
    let trades =
        vec![trade(day(2021, 1, 6), 5, "IWDA.AMS"), trade(day(2021, 1, 4), 10, "IWDA.AMS")];
    let prices = vec![price(day(2021, 1, 6), 1200, 2, "IWDA.AMS")];
    assert_eq!(build_portfolio(&prices, &trades), Err(BuildError::UnsortedTrades));
}

#[test]
fn position_overflow_is_refused() {
    let trades =
        vec![trade(day(2021, 1, 4), i64::MAX, "IWDA.AMS"), trade(day(2021, 1, 4), 1, "IWDA.AMS")];
    let prices = vec![price(day(2021, 1, 4), 100, 2, "IWDA.AMS")];
    assert_eq!(build_portfolio(&prices, &trades), Err(BuildError::ValueOverflow));
}

#[test]
fn value_overflow_is_refused() {
    let trades = vec![trade(day(2021, 1, 4), 2, "IWDA.AMS")];
    let prices = vec![price(day(2021, 1, 4), i128::MAX, 2, "IWDA.AMS")];
    assert_eq!(build_portfolio(&prices, &trades), Err(BuildError::ValueOverflow));
}

#[test]
fn overflow_past_the_last_price_is_harmless() {
    let trades =
        vec![trade(day(2021, 1, 4), 10, "IWDA.AMS"), trade(day(2021, 1, 9), i64::MAX, "IWDA.AMS")];
    let prices = vec![price(day(2021, 1, 4), 100, 2, "IWDA.AMS")];
    let out = build_portfolio(&prices, &trades).unwrap();
    assert_eq!(out, vec![point(day(2021, 1, 4), 1000, 2)]);
}

#[test]
fn fan_out_builds_each_ticker_alone() {
    let tickers = vec!["IWDA.AMS".to_string(), "NQSE.DEX".to_string()];
    let trades = vec![
        trade(day(2021, 1, 4), 10, "IWDA.AMS"),
        trade(day(2021, 1, 4), 3, "NQSE.DEX"),
        trade(day(2021, 1, 5), -2, "NQSE.DEX"),
    ];
    let prices = vec![
        price(day(2021, 1, 4), 1000, 2, "IWDA.AMS"),
        price(day(2021, 1, 4), 500, 2, "NQSE.DEX"),
        price(day(2021, 1, 5), 600, 2, "NQSE.DEX"),
        price(day(2021, 1, 5), 1100, 2, "IWDA.AMS"),
    ];
    let out = generate_portfolio(&tickers, &prices, &trades).unwrap();
    assert_eq!(out.len(), 2);
    assert_eq!(out[0].0, "IWDA.AMS");
    assert_eq!(
        out[0].1,
        vec![point(day(2021, 1, 4), 10000, 2), point(day(2021, 1, 5), 11000, 2)]
    );
    assert_eq!(out[1].0, "NQSE.DEX");
    assert_eq!(out[1].1, vec![point(day(2021, 1, 4), 1500, 2), point(day(2021, 1, 5), 600, 2)]);
}

#[test]
fn fan_out_hands_back_the_first_failing_ticker_error() {
    let tickers = vec!["IWDA.AMS".to_string(), "NQSE.DEX".to_string()];
    let trades =
        vec![trade(day(2021, 1, 4), 10, "IWDA.AMS"), trade(day(2021, 1, 4), 2, "NQSE.DEX")];
    let prices = vec![
        price(day(2021, 1, 4), 1000, 2, "IWDA.AMS"),
        price(day(2021, 1, 4), i128::MAX, 2, "NQSE.DEX"),
    ];
    assert_eq!(generate_portfolio(&tickers, &prices, &trades), Err(BuildError::ValueOverflow));
}

#[test]
fn fan_out_with_no_rows_for_a_ticker_yields_an_empty_series() {
    let tickers = vec!["IWDA.AMS".to_string()];
    let out = generate_portfolio(&tickers, &vec![], &vec![]).unwrap();
    assert_eq!(out.len(), 1);
    assert_eq!(out[0].0, "IWDA.AMS");
    assert_eq!(out[0].1, vec![]);
}
