use vstd::prelude::*;

verus! {

/// An exact decimal number `mantissa * 10^(-scale)`, the shape in which
/// bigdecimal keeps an arbitrary-precision decimal. Closing prices and
/// portfolio values are held this way so that the one operation the
/// valuation needs — multiplying a price by an integer position — is exact
/// integer arithmetic on the mantissa, with the scale unchanged.
#[derive(Clone, Copy, PartialEq, Eq, Structural, Debug)]
pub struct Decimal {
    pub mantissa: i128,
    pub scale: i64,
}

/// The mantissa and scale that bigdecimal gives for `s`, when `s` reads as
/// a decimal number whose mantissa fits an `i128`; `None` otherwise.
pub uninterp spec fn dec_parts_of(s: Seq<char>) -> Option<(i128, i64)>;

/// Relies on bigdecimal's `BigDecimal::from_str`, which reads a decimal
/// number equal to `digits * 10^(-exponent)`, and on
/// `BigDecimal::into_bigint_and_exponent`, which hands those two parts
/// back; `i128::try_from` rejects a mantissa that does not fit.
#[verifier::external_body]
pub(crate) fn parse_decimal(s: &str) -> (r: Option<Decimal>)
    ensures
        match r {
            Some(d) => dec_parts_of(s@) == Some((d.mantissa, d.scale)),
            None => dec_parts_of(s@) is None,
        },
{
    let parsed: bigdecimal::BigDecimal = match s.parse() {
        Ok(p) => p,
        Err(_) => return None,
    };
    let (digits, exponent) = parsed.into_bigint_and_exponent();
    match i128::try_from(digits) {
        Ok(mantissa) => Some(Decimal { mantissa, scale: exponent }),
        Err(_) => None,
    }
}

} // verus!
