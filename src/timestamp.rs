use vstd::prelude::*;

verus! {

/// The three timestamps of a file or directory.
#[derive(Clone, Copy, Debug, PartialEq, Eq, Structural)]
pub struct Timestamps {
    created: Timestamp,
    modified: Timestamp,
    accessed: Timestamp,
}

impl Timestamps {
    pub fn new(created: Timestamp, modified: Timestamp, accessed: Timestamp) -> (r: Self)
        ensures
            r.spec_created() == created,
            r.spec_modified() == modified,
            r.spec_accessed() == accessed,
    {
        Timestamps { created, modified, accessed }
    }

    pub closed spec fn spec_created(&self) -> Timestamp {
        self.created
    }

    pub closed spec fn spec_modified(&self) -> Timestamp {
        self.modified
    }

    pub closed spec fn spec_accessed(&self) -> Timestamp {
        self.accessed
    }

    pub fn created(&self) -> (r: &Timestamp)
        ensures
            *r == self.spec_created(),
    {
        &self.created
    }

    pub fn modified(&self) -> (r: &Timestamp)
        ensures
            *r == self.spec_modified(),
    {
        &self.modified
    }

    pub fn accessed(&self) -> (r: &Timestamp)
        ensures
            *r == self.spec_accessed(),
    {
        &self.accessed
    }
}

/// A timestamp field: date and time packed in 32 bits, a count of 10 ms
/// increments, and an offset from UTC in 15 minute intervals.
#[derive(Clone, Copy, Debug, PartialEq, Eq, Structural)]
pub struct Timestamp {
    timestamp: u32,
    ms_increment: u8,
    utc_offset: i8,
}

/// A calendar date.
#[derive(Clone, Copy, Debug, PartialEq, Eq, Structural)]
pub struct Date {
    pub day: u8,
    pub month: u8,
    pub year: u16,
}

/// A time of day.
#[derive(Clone, Copy, Debug, PartialEq, Eq, Structural)]
pub struct Time {
    pub hour: u8,
    pub minute: u8,
    pub second: u8,
}

impl Timestamp {
    pub fn new(timestamp: u32, ms_increment: u8, utc_offset: i8) -> (r: Self)
        ensures
            r.spec_timestamp() == timestamp,
            r.spec_ms_increment() == ms_increment,
            r.spec_utc_offset() == utc_offset,
    {
        Timestamp { timestamp, ms_increment, utc_offset }
    }

    pub closed spec fn spec_timestamp(&self) -> u32 {
        self.timestamp
    }

    pub closed spec fn spec_ms_increment(&self) -> u8 {
        self.ms_increment
    }

    pub closed spec fn spec_utc_offset(&self) -> i8 {
        self.utc_offset
    }

    /// Day in bits 16 to 20, month in bits 21 to 24, and the year since
    /// 1980 in bits 25 to 31.
    pub fn date(&self) -> (r: Date)
        ensures
            r.day == (self.spec_timestamp() / 0x10000) % 32,
            r.month == (self.spec_timestamp() / 0x200000) % 16,
            r.year == 1980 + self.spec_timestamp() / 0x2000000,
    {
        Date {
            day: ((self.timestamp / 0x10000) % 32) as u8,
            month: ((self.timestamp / 0x200000) % 16) as u8,
            year: 1980 + (self.timestamp / 0x2000000) as u16,
        }
    }

    /// Seconds in units of two in bits 0 to 4, the minute in bits 5 to
    /// 10 and the hour in bits 11 to 15. Whole seconds of the increment
    /// count are added to the seconds.
    pub fn time(&self) -> (r: Time)
        ensures
            r.second == self.spec_ms_increment() as int / 1000 + (self.spec_timestamp() % 32) * 2,
            r.minute == (self.spec_timestamp() / 32) % 64,
            r.hour == (self.spec_timestamp() / 2048) % 32,
    {
        Time {
            second: (self.ms_increment as u16 / 1000) as u8 + (self.timestamp % 32) as u8 * 2,
            minute: ((self.timestamp / 32) % 64) as u8,
            hour: ((self.timestamp / 2048) % 32) as u8,
        }
    }

    pub fn utc_offset(&self) -> (r: i8)
        ensures
            r == self.spec_utc_offset(),
    {
        self.utc_offset
    }
}

} // verus!
