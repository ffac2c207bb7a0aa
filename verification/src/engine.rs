//! The clock's engine: calendar and zodiac quantities on whole degrees and days.
use vstd::prelude::*;

use crate::calendar::{day_of_year, year_days, CivilDate};

verus! {

/// The ecliptic longitude, in whole degrees, at which the Sun enters each of the 13
/// constellations of the astronomical zodiac (index 0 is Aries, 12 is Pisces);
/// 0 for any other index.
pub open spec fn zodiac_boundary(index: int) -> int {
    if index == 0 {
        29  // Aries
    } else if index == 1 {
        53  // Taurus
    } else if index == 2 {
        90  // Gemini
    } else if index == 3 {
        119  // Cancer
    } else if index == 4 {
        138  // Leo
    } else if index == 5 {
        174  // Virgo
    } else if index == 6 {
        217  // Libra
    } else if index == 7 {
        241  // Scorpio
    } else if index == 8 {
        248  // Ophiuchus
    } else if index == 9 {
        266  // Sagittarius
    } else if index == 10 {
        299  // Capricorn
    } else if index == 11 {
        327  // Aquarius
    } else if index == 12 {
        351  // Pisces
    } else {
        0
    }
}

/// The clock engine, anchored on an epoch date.
pub struct NaturalSquaresEngine {
    pub epoch_date: CivilDate,
}

impl NaturalSquaresEngine {
    /// An engine anchored on `epoch`.
    pub fn new(epoch: CivilDate) -> (r: Self)
        ensures
            r.epoch_date@ == epoch@,
    {
        Self { epoch_date: epoch }
    }

    /// The day count of the year of `date` (January 1st is 1, May 23rd of a common
    /// year is 143).
    pub fn get_current_day_count(date: CivilDate) -> (r: u32)
        ensures
            r == day_of_year(date@.0, date@.1, date@.2),
            1 <= r <= year_days(date@.0),
    {
        date.ordinal()
    }

    /// The angle of an hour on the 24-hour ring, in degrees: one hour is 15 degrees
    /// and hour 1 sits at 0 degrees. Hour 0 has no place on the ring.
    pub fn hour_to_angle(hour: u32) -> (r: u64)
        requires
            hour >= 1,
        ensures
            r == (hour - 1) * 15,
    {
        ((hour - 1) as u64) * 15
    }

    /// The ecliptic longitude, in degrees, at which the Sun enters sign `index` of
    /// the 13-sign zodiac (0 is Aries at 29 degrees, 12 is Pisces at 351 degrees);
    /// 0 for any other index.
    pub fn zodiac_to_angle(index: u32) -> (r: u32)
        ensures
            r == zodiac_boundary(index as int),
    {
        match index {
            0 => 29,
            1 => 53,
            2 => 90,
            3 => 119,
            4 => 138,
            5 => 174,
            6 => 217,
            7 => 241,
            8 => 248,
            9 => 266,
            10 => 299,
            11 => 327,
            12 => 351,
            _ => 0,
        }
    }

    /// The sign whose stretch of the ecliptic holds the whole-degree longitude
    /// `tick`: the index `i` below 12 with `zodiac_to_angle(i) <= tick <
    /// zodiac_to_angle(i + 1)`. Where no sign below 12 holds it (before Aries at 29
    /// degrees, or from Pisces at 351 degrees on) the answer is 0.
    pub fn zodiac_segment_of(tick: u32) -> (r: usize)
        ensures
            r < 12,
            29 <= tick < 351 ==> zodiac_boundary(r as int) <= tick < zodiac_boundary(r + 1),
            !(29 <= tick < 351) ==> r == 0,
    {
        let t0 = tick as u64;
        let mut i: usize = 0;
        while i < 12
            invariant
                i <= 12,
                t0 == tick,
                forall|j: int|
                    0 <= j < i ==> !(#[trigger] zodiac_boundary(j) <= tick < zodiac_boundary(j + 1)),
            decreases 12 - i,
        {
            let a0 = (Self::zodiac_to_angle(i as u32) % 360) as u64;
            let mut b0 = (Self::zodiac_to_angle((i + 1) as u32) % 360) as u64;
            if b0 < a0 {
                b0 = b0 + 360;
            }
            let mut t = t0;
            if t < a0 {
                t = t + 360;
            }
            if t >= a0 && t < b0 {
                return i;
            }
            i = i + 1;
        }
        proof {
            if 29 <= tick < 351 {
                lemma_zodiac_covers(tick as int);
            }
        }
        0
    }
}

/// The sign boundaries rise strictly from Aries to Pisces and lie within a turn.
pub proof fn lemma_zodiac_boundaries_increasing(i: int, j: int)
    requires
        0 <= i < j <= 12,
    ensures
        0 <= zodiac_boundary(i) < zodiac_boundary(j) < 360,
{
}

/// The sign boundaries, index by index: Aries 29, Taurus 53, Gemini 90, Cancer 119,
/// Leo 138, Virgo 174, Libra 217, Scorpio 241, Ophiuchus 248, Sagittarius 266,
/// Capricorn 299, Aquarius 327, Pisces 351 degrees; every other index gives 0.
pub proof fn lemma_zodiac_boundary_values(index: int)
    ensures
        index == 0 ==> zodiac_boundary(index) == 29,
        index == 1 ==> zodiac_boundary(index) == 53,
        index == 2 ==> zodiac_boundary(index) == 90,
        index == 3 ==> zodiac_boundary(index) == 119,
        index == 4 ==> zodiac_boundary(index) == 138,
        index == 5 ==> zodiac_boundary(index) == 174,
        index == 6 ==> zodiac_boundary(index) == 217,
        index == 7 ==> zodiac_boundary(index) == 241,
        index == 8 ==> zodiac_boundary(index) == 248,
        index == 9 ==> zodiac_boundary(index) == 266,
        index == 10 ==> zodiac_boundary(index) == 299,
        index == 11 ==> zodiac_boundary(index) == 327,
        index == 12 ==> zodiac_boundary(index) == 351,
        (index < 0 || index > 12) ==> zodiac_boundary(index) == 0,
{
}

/// Every whole degree from Aries on up to Pisces falls in one sign below 12.
proof fn lemma_zodiac_covers(t: int)
    requires
        29 <= t < 351,
    ensures
        exists|i: int| 0 <= i < 12 && zodiac_boundary(i) <= t < #[trigger] zodiac_boundary(i + 1),
{
    let i = if t < 53 {
        0int
    } else if t < 90 {
        1
    } else if t < 119 {
        2
    } else if t < 138 {
        3
    } else if t < 174 {
        4
    } else if t < 217 {
        5
    } else if t < 241 {
        6
    } else if t < 248 {
        7
    } else if t < 266 {
        8
    } else if t < 299 {
        9
    } else if t < 327 {
        10
    } else {
        11
    };
    assert(zodiac_boundary(i) <= t < zodiac_boundary(i + 1));
}

/// Each whole degree lies in at most one sign's stretch.
pub proof fn lemma_zodiac_segments_disjoint(t: int, i: int, j: int)
    requires
        0 <= i < 12,
        0 <= j < 12,
        zodiac_boundary(i) <= t < zodiac_boundary(i + 1),
        zodiac_boundary(j) <= t < zodiac_boundary(j + 1),
    ensures
        i == j,
{
    if i + 1 < j {
        lemma_zodiac_boundaries_increasing(i + 1, j);
    } else if j + 1 < i {
        lemma_zodiac_boundaries_increasing(j + 1, i);
    }
}

} // verus!
