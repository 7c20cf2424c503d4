//! What a chart of a series needs to know before it is drawn: the greatest
//! value for the height of an axis, the ends of the time axis, and the months
//! of two series side by side.

use crate::time::{Instant, Key, MonthKey};
use vstd::prelude::*;

verus! {

/// The awards and the seconds worked of one month, from which an hourly rate
/// is taken.
#[derive(Clone, Copy, Debug, PartialEq, Eq, Structural)]
pub struct RatePoint {
    pub month: MonthKey,
    pub awards: u128,
    pub seconds: u128,
}

/// The ends of the axes of a participation chart.
#[derive(Clone, Copy, Debug, PartialEq, Eq, Structural)]
pub struct ParticipationFrame {
    pub earliest: Instant,
    pub latest: Instant,
    pub most: u128,
}

/// `peak` is the greatest amount in `series`.
pub open spec fn is_peak(series: Seq<(MonthKey, u128)>, peak: u128) -> bool {
    &&& exists|i: int| 0 <= i < series.len() && (#[trigger] series[i]).1 == peak
    &&& forall|i: int| 0 <= i < series.len() ==> (#[trigger] series[i]).1 <= peak
}

/// `frame` holds the earliest and the latest instant and the greatest count
/// in `series`.
pub open spec fn frames(series: Seq<(Instant, u128)>, frame: ParticipationFrame) -> bool {
    &&& exists|i: int| 0 <= i < series.len() && (#[trigger] series[i]).0 == frame.earliest
    &&& exists|i: int| 0 <= i < series.len() && (#[trigger] series[i]).0 == frame.latest
    &&& exists|i: int| 0 <= i < series.len() && (#[trigger] series[i]).1 == frame.most
    &&& forall|i: int|
        0 <= i < series.len() ==> frame.earliest.rank() <= (#[trigger] series[i]).0.rank()
            <= frame.latest.rank()
    &&& forall|i: int| 0 <= i < series.len() ==> (#[trigger] series[i]).1 <= frame.most
}

/// The greatest amount in `series`, or `None` for an empty series.
pub fn peak_amount(series: &Vec<(MonthKey, u128)>) -> (peak: Option<u128>)
    ensures
        peak is None <==> series@.len() == 0,
        peak is Some ==> is_peak(series@, peak->Some_0),
{
    if series.len() == 0 {
        return None;
    }
    let mut best: u128 = series[0].1;
    let mut i: usize = 1;
    while i < series.len()
        invariant
            1 <= i <= series.len(),
            exists|k: int| 0 <= k < i && (#[trigger] series@[k]).1 == best,
            forall|k: int| 0 <= k < i ==> (#[trigger] series@[k]).1 <= best,
        decreases series.len() - i,
    {
        if series[i].1 > best {
            best = series[i].1;
        }
        i += 1;
    }
    Some(best)
}

/// The two series side by side, entry by entry, as far as the shorter of
/// them goes: the month of the hours, the awards and the seconds.
pub fn rate_points(hours: &Vec<(MonthKey, u128)>, awards: &Vec<(MonthKey, u128)>) -> (points: Vec<
    RatePoint,
>)
    ensures
        points@.len() == (if hours@.len() <= awards@.len() {
            hours@.len()
        } else {
            awards@.len()
        }),
        forall|i: int|
            0 <= i < points@.len() ==> #[trigger] points@[i] == (RatePoint {
                month: hours@[i].0,
                awards: awards@[i].1,
                seconds: hours@[i].1,
            }),
{
    let mut points: Vec<RatePoint> = Vec::new();
    let mut i: usize = 0;
    while i < hours.len() && i < awards.len()
        invariant
            i <= hours.len(),
            i <= awards.len(),
            points@.len() == i,
            forall|k: int|
                0 <= k < i ==> #[trigger] points@[k] == (RatePoint {
                    month: hours@[k].0,
                    awards: awards@[k].1,
                    seconds: hours@[k].1,
                }),
        decreases hours.len() - i,
    {
        points.push(RatePoint { month: hours[i].0, awards: awards[i].1, seconds: hours[i].1 });
        i += 1;
    }
    points
}

/// The earliest and the latest instant and the greatest count in `series`,
/// or `None` for an empty series.
pub fn participation_frame(series: &Vec<(Instant, u128)>) -> (frame: Option<ParticipationFrame>)
    ensures
        frame is None <==> series@.len() == 0,
        frame is Some ==> frames(series@, frame->Some_0),
{
    if series.len() == 0 {
        return None;
    }
    let mut earliest: Instant = series[0].0;
    let mut latest: Instant = series[0].0;
    let mut most: u128 = series[0].1;
    let mut i: usize = 1;
    while i < series.len()
        invariant
            1 <= i <= series.len(),
            exists|k: int| 0 <= k < i && (#[trigger] series@[k]).0 == earliest,
            exists|k: int| 0 <= k < i && (#[trigger] series@[k]).0 == latest,
            exists|k: int| 0 <= k < i && (#[trigger] series@[k]).1 == most,
            forall|k: int|
                0 <= k < i ==> earliest.rank() <= (#[trigger] series@[k]).0.rank() <= latest.rank(),
            forall|k: int| 0 <= k < i ==> (#[trigger] series@[k]).1 <= most,
        decreases series.len() - i,
    {
        let (at, count) = series[i];
        if at.precedes(&earliest) {
            earliest = at;
        }
        if latest.precedes(&at) {
            latest = at;
        }
        if count > most {
            most = count;
        }
        i += 1;
    }
    Some(ParticipationFrame { earliest, latest, most })
}

} // verus!
