//! Points in time and how they are written in the machine's time zone.

use vstd::prelude::*;
use vstd::string::*;
use chrono::TimeZone;
use crate::names::comes_before;
use crate::number::is_digit;

verus! {

/// The milliseconds since 1970 that fall on a day of the calendar: from the first
/// day of the year -262143 to the last of the year 262142.
pub open spec fn datable(ms: int) -> bool {
    -8_334_601_228_800_000 <= ms <= 8_210_266_876_799_999
}

/// The seconds by which a local time can be ahead of universal time: less than a
/// day, either way.
pub open spec fn zone_offset(offset: int) -> bool {
    -86_400 < offset < 86_400
}

/// The notation of file names: `20260722-141100`.
pub const FILE_STAMP: &'static str = "%Y%m%d-%H%M%S";

/// The notation of events: `2026-07-22T14:11:00+08:00`.
pub const ISO_TIME: &'static str = "%Y-%m-%dT%H:%M:%S%:z";

/// The notation of samples: `14:11:00`.
pub const CLOCK_TIME: &'static str = "%H:%M:%S";

/// The notation of log lines: `2026-07-22 14:11:00.123`.
pub const LINE_TIME: &'static str = "%Y-%m-%d %H:%M:%S%.3f";

/// Whether a pattern is one of the notations above.
pub open spec fn notation(pattern: Seq<char>) -> bool {
    pattern == FILE_STAMP@ || pattern == ISO_TIME@ || pattern == CLOCK_TIME@ || pattern
        == LINE_TIME@
}

/// The text that chrono's `DateTime::format` gives for the point in time `ms` at
/// a fixed offset from universal time.
pub uninterp spec fn time_text(ms: int, offset: int, pattern: Seq<char>) -> Seq<char>;

/// Whether the local time falls in the years 0 to 9999, which are written with four
/// digits.
pub open spec fn four_digit_year(ms: int, offset: int) -> bool {
    -62_167_219_200_000 <= ms + offset * 1000 < 253_402_300_800_000
}

/// Whether a text has the form of a file stamp: fifteen digits and hyphens.
pub open spec fn is_stamp(s: Seq<char>) -> bool {
    s.len() == 15 && forall|i: int| 0 <= i < s.len() ==> is_digit(#[trigger] s[i]) || s[i] == '-'
}

/// Whether a file stamp comes after, or is, that of every point in time up to `ms`
/// at the same offset, all of them in the form of stamps.
pub open spec fn follows_earlier(stamp: Seq<char>, ms: int, offset: int) -> bool {
    forall|e: int|
        e <= ms && four_digit_year(e, offset) ==> is_stamp(
            #[trigger] time_text(e, offset, FILE_STAMP@),
        ) && !comes_before(stamp, time_text(e, offset, FILE_STAMP@))
}

/// chrono's `FixedOffset::east_opt`, `TimeZone::timestamp_millis_opt` and
/// `DateTime::format`: the text of a point in time depends on nothing but the
/// point in time, the offset and the pattern. The offset is one that `east_opt`
/// accepts, the point in time one that falls on a day of its calendar, and the
/// pattern one that it can write. In the years 0 to 9999 the notation of file names
/// writes the year with four digits and each other field with two, from the largest
/// field to the smallest, so that the text of an earlier point in time at the same
/// offset does not come after that of a later one.
#[verifier::external_body]
fn format_at(ms: i64, offset: i32, pattern: &str) -> (r: String)
    requires
        datable(ms as int),
        zone_offset(offset as int),
        notation(pattern@),
    ensures
        r@ == time_text(ms as int, offset as int, pattern@),
        pattern@ == FILE_STAMP@ && four_digit_year(ms as int, offset as int) ==> follows_earlier(
            r@,
            ms as int,
            offset as int,
        ),
{
    let zone = chrono::FixedOffset::east_opt(offset).unwrap();
    zone.timestamp_millis_opt(ms).unwrap().format(pattern).to_string()
}

/// chrono's `Local.timestamp_millis_opt`: the offset of the machine's time zone
/// at the point in time `ms`. Which offset that is rests on the machine's
/// configuration, so only its range is claimed. No argument makes the call panic; a
/// configured zone that is a whole day off universal time does, as chrono reads it
/// but has no offset for it.
#[verifier::external_body]
fn local_offset(ms: i64) -> (r: i32)
    requires
        datable(ms as int),
    ensures
        zone_offset(r as int),
{
    chrono::Local.timestamp_millis_opt(ms).unwrap().offset().local_minus_utc()
}

/// Whether `offset` is one that chrono can give for the machine's time zone at the
/// point in time `ms`: a result that a call of [`local_offset`] has.
pub closed spec fn machine_offset(ms: i64, offset: i32) -> bool {
    call_ensures(local_offset, (ms,), offset)
}

/// A point in time together with the offset of the time zone that it is read in.
#[derive(Clone, Copy)]
pub struct LocalTime {
    ms: i64,
    offset: i32,
}

impl LocalTime {
    #[verifier::type_invariant]
    spec fn inv(self) -> bool {
        datable(self.ms as int) && zone_offset(self.offset as int)
    }

    /// The milliseconds since 1970.
    pub closed spec fn millis(self) -> int {
        self.ms as int
    }

    /// The seconds that the time zone is ahead of universal time.
    pub closed spec fn offset(self) -> int {
        self.offset as int
    }

    /// How the point in time is written in one of the notations.
    pub open spec fn text(self, pattern: Seq<char>) -> Seq<char> {
        time_text(self.millis(), self.offset(), pattern)
    }

    /// The point in time `ms` in a zone `offset` seconds ahead of universal time,
    /// where both are in range.
    pub fn new(ms: i64, offset: i32) -> (r: Option<LocalTime>)
        ensures
            r is Some == (datable(ms as int) && zone_offset(offset as int)),
            r matches Some(t) ==> t.millis() == ms && t.offset() == offset,
    {
        if -8_334_601_228_800_000 <= ms && ms <= 8_210_266_876_799_999 && -86_400 < offset
            && offset < 86_400 {
            Some(LocalTime { ms, offset })
        } else {
            None
        }
    }

    /// The point in time `ms` in the machine's time zone, where it is in range.
    pub fn local(ms: i64) -> (r: Option<LocalTime>)
        ensures
            r is Some == datable(ms as int),
            r matches Some(t) ==> t.millis() == ms && zone_offset(t.offset()),
            r matches Some(t) ==> exists|o: i32| #[trigger]
                machine_offset(ms, o) && t.offset() == o,
    {
        if -8_334_601_228_800_000 <= ms && ms <= 8_210_266_876_799_999 {
            let offset: i32 = local_offset(ms);
            assert(machine_offset(ms, offset));
            Some(LocalTime { ms, offset })
        } else {
            None
        }
    }

    /// The point in time as part of a file name.
    pub fn file_stamp(&self) -> (r: String)
        ensures
            r@ == self.text(FILE_STAMP@),
            four_digit_year(self.millis(), self.offset()) ==> follows_earlier(
                r@,
                self.millis(),
                self.offset(),
            ),
    {
        proof {
            use_type_invariant(self);
        }
        format_at(self.ms, self.offset, FILE_STAMP)
    }

    /// The point in time as events carry it.
    pub fn iso(&self) -> (r: String)
        ensures
            r@ == self.text(ISO_TIME@),
    {
        proof {
            use_type_invariant(self);
        }
        format_at(self.ms, self.offset, ISO_TIME)
    }

    /// The time of day.
    pub fn clock(&self) -> (r: String)
        ensures
            r@ == self.text(CLOCK_TIME@),
    {
        proof {
            use_type_invariant(self);
        }
        format_at(self.ms, self.offset, CLOCK_TIME)
    }

    /// The point in time as log lines carry it.
    pub fn line_time(&self) -> (r: String)
        ensures
            r@ == self.text(LINE_TIME@),
    {
        proof {
            use_type_invariant(self);
        }
        format_at(self.ms, self.offset, LINE_TIME)
    }
}

/// The days of the calendar are those from 96465292 days before 1970 to 95026236 days
/// after it, each whole; time zones are less than 24 hours off.
pub proof fn law_calendar_is_made_of_whole_days(ms: int, offset: int)
    ensures
        datable(ms) == (-96_465_292 <= ms / 86_400_000 <= 95_026_236),
        zone_offset(offset) == (-24 * 3600 < offset && offset < 24 * 3600),
        four_digit_year(ms, offset) == (-719_528 <= (ms + 1000 * offset) / 86_400_000
            < 2_932_897),
{
}

/// Each use has its own notation.
pub proof fn law_notations_are_spelled_out()
    ensures
        FILE_STAMP@ == "%Y%m%d-%H%M%S"@,
        ISO_TIME@ == "%Y-%m-%dT%H:%M:%S%:z"@,
        CLOCK_TIME@ == "%H:%M:%S"@,
        LINE_TIME@ == "%Y-%m-%d %H:%M:%S%.3f"@,
{
}

} // verus!
