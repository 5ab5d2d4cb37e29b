use vstd::prelude::*;

verus! {

/// A point in time with the UTC offset it was written in.
#[derive(Debug, Clone, Copy, PartialEq, Eq)]
pub struct Timestamp {
    /// Whole seconds since 1970-01-01T00:00:00Z.
    pub unix_seconds: i64,
    /// Nanoseconds past `unix_seconds`.
    pub nanosecond: u32,
    /// Offset from UTC, in seconds.
    pub offset_seconds: i32,
}

impl Timestamp {
    /// The parts of the timestamp as one value.
    pub open spec fn parts(self) -> (i64, u32, i32) {
        (self.unix_seconds, self.nanosecond, self.offset_seconds)
    }
}

/// The instant and offset that an RFC 3339 text denotes, or `None` where the
/// text is not one.
pub uninterp spec fn rfc3339_reading(text: Seq<char>) -> Option<(i64, u32, i32)>;

/// Relies on `time::OffsetDateTime::parse` with the `Rfc3339` description:
/// it reads the text alone, and `unix_timestamp`, `nanosecond` and
/// `offset().whole_seconds()` give the parts of what it read.
#[verifier::external_body]
pub(crate) fn parse_rfc3339(text: &str) -> (r: Option<Timestamp>)
    ensures
        match r {
            Some(t) => rfc3339_reading(text@) == Some(t.parts()),
            None => rfc3339_reading(text@) is None,
        },
{
    match time::OffsetDateTime::parse(text, &time::format_description::well_known::Rfc3339) {
        Ok(t) => Some(Timestamp {
            unix_seconds: t.unix_timestamp(),
            nanosecond: t.nanosecond(),
            offset_seconds: t.offset().whole_seconds(),
        }),
        Err(_) => None,
    }
}

} // verus!
