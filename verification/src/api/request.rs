//! Requests, and how their times are written.

use crate::moments::{OutOfRange, UtcMoment, FIRST_SECOND, LAST_SECOND};
use crate::route::context::LatLng;
use vstd::prelude::*;

verus! {

/// How one gets from stop to stop.
#[derive(Clone, Copy, PartialEq, Eq, Structural, Debug)]
pub enum TransferMode {
    Walking,
    Cycling,
}

impl Default for TransferMode {
    fn default() -> (mode: TransferMode)
        ensures
            mode == TransferMode::Walking,
    {
        TransferMode::Walking
    }
}

/// How many transfers there may be.
#[derive(Clone, Copy, PartialEq, Eq, Structural, Debug)]
pub struct TransferQuantity(pub usize);

impl Default for TransferQuantity {
    fn default() -> (quantity: TransferQuantity)
        ensures
            quantity.0 == usize::MAX,
    {
        TransferQuantity(usize::MAX)
    }
}

/// A request for itineraries: from where to where, when to start or when to be there, and how.
#[derive(Clone, Copy, PartialEq, Eq, Structural, Debug)]
pub struct SolariRequest {
    pub from: LatLng,
    pub to: LatLng,
    pub start_at: Option<UtcMoment>,
    pub end_at: Option<UtcMoment>,
    pub transfer_mode: TransferMode,
    pub max_transfers: TransferQuantity,
}

/// `a / b` without its fraction, for a positive `b`.
pub open spec fn without_fraction(a: int, b: int) -> int {
    if a >= 0 {
        a / b
    } else {
        -((-a) / b)
    }
}

/// What is left of a quotient without its fraction is the whole number next to it on the side of
/// zero.
pub proof fn lemma_without_fraction(a: int, b: int)
    requires
        b > 0,
    ensures
        a >= 0 ==> without_fraction(a, b) * b <= a < (without_fraction(a, b) + 1) * b,
        a <= 0 ==> (without_fraction(a, b) - 1) * b < a <= without_fraction(a, b) * b,
{
    let q = without_fraction(a, b);
    let m = if a >= 0 {
        a
    } else {
        -a
    };
    vstd::arithmetic::div_mod::lemma_fundamental_div_mod(m, b);
    vstd::arithmetic::div_mod::lemma_mod_bound(m, b);
    let p = m / b;
    assert(p * b == b * p && (p + 1) * b == b * p + b && (-p) * b == -(b * p) && (-p - 1) * b == -(b
        * p) - b) by (nonlinear_arith);
    if a == 0 {
        assert(p == 0) by (nonlinear_arith)
            requires
                0 == b * p + m % b,
                0 <= m % b < b,
                b > 0,
        ;
        assert((0 - 1) * b == -b) by (nonlinear_arith);
        assert(1 * b == b) by (nonlinear_arith);
    }
}

/// A moment as it is written: in whole milliseconds since the Unix epoch, if there is one.
pub fn serialize_optional_millis(value: &Option<UtcMoment>) -> (millis: Option<i64>)
    requires
        value matches Some(moment) ==> moment.wf(),
    ensures
        value is None <==> millis is None,
        value matches Some(moment) ==> millis->0 == without_fraction(
            moment.total_nanos(),
            1_000_000,
        ),
{
    match value {
        None => None,
        Some(moment) => {
            let below: i64 = moment.seconds * 1000 + (moment.nanos / 1_000_000) as i64;
            if below < 0 && moment.nanos % 1_000_000 != 0 {
                Some(below + 1)
            } else {
                Some(below)
            }
        },
    }
}

/// The moment that was written as milliseconds since the Unix epoch, if any was.
pub fn deserialize_optional_millis(millis: Option<i64>) -> (r: Result<
    Option<UtcMoment>,
    OutOfRange,
>)
    ensures
        r is Ok <==> (millis matches Some(ms) ==> FIRST_SECOND * 1000 <= ms < (LAST_SECOND + 1)
            * 1000),
        r matches Ok(value) ==> {
            &&& value is None <==> millis is None
            &&& value matches Some(moment) ==> moment.wf() && moment.total_nanos() == millis->0
                * 1_000_000
        },
{
    match millis {
        None => Ok(None),
        Some(ms) => match UtcMoment::from_unix_timestamp_nanos(ms as i128 * 1_000_000) {
            Ok(moment) => Ok(Some(moment)),
            Err(err) => Err(err),
        },
    }
}

/// A moment that was read from milliseconds is written as the same milliseconds.
pub proof fn lemma_millis_written_back(moment: UtcMoment, ms: i64)
    requires
        moment.total_nanos() == ms * 1_000_000,
    ensures
        without_fraction(moment.total_nanos(), 1_000_000) == ms,
{
}

} // verus!
