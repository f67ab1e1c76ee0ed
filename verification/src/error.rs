use vstd::prelude::*;

verus! {

/// Everything that can go wrong while loading a schedule, building the graph
/// or answering a query.
#[derive(Debug, Clone, Copy, PartialEq, Eq, Structural)]
pub enum GtfsError {
    /// A required file is missing or unreadable.
    IoFailure,
    /// A required column is absent or the header is wrong.
    SchemaMismatch,
    /// A time field is not of the form `HH:MM:SS`.
    MalformedTime,
    /// A date field is not a calendar date written `YYYYMMDD`.
    MalformedDate,
    /// A numeric field does not hold a number.
    MalformedNumber,
    /// A flag field holds something other than 0 or 1.
    MalformedBool,
    /// A foreign key cannot be resolved.
    DanglingReference,
    /// Two stop times of a trip share a sequence number, or the times of a
    /// trip are not in order.
    ScheduleConflict,
    /// An earliest-departure lookup was made on a stop that is still open.
    NotFinalized,
    /// A departure was added to a stop that is already finalized.
    AlreadyFinalized,
    /// The origin or the destination of a query is not a known stop.
    UnknownStop,
    /// The origin has no departure at or after the requested time.
    NoDeparture,
}

impl GtfsError {
    /// A short human-readable description of the error.
    pub fn message(&self) -> (text: String)
        ensures
            text@ == error_text(*self)@,
    {
        match self {
            GtfsError::IoFailure => "a required file is missing or unreadable".to_owned(),
            GtfsError::SchemaMismatch => "a required column is missing".to_owned(),
            GtfsError::MalformedTime => "a time field is malformed".to_owned(),
            GtfsError::MalformedDate => "a date field is malformed".to_owned(),
            GtfsError::MalformedNumber => "a numeric field is malformed".to_owned(),
            GtfsError::MalformedBool => "a flag field is neither 0 nor 1".to_owned(),
            GtfsError::DanglingReference => "a reference cannot be resolved".to_owned(),
            GtfsError::ScheduleConflict => "the stop times of a trip are inconsistent".to_owned(),
            GtfsError::NotFinalized => "the stop is not finalized yet".to_owned(),
            GtfsError::AlreadyFinalized => "the stop is already finalized".to_owned(),
            GtfsError::UnknownStop => "stop not found".to_owned(),
            GtfsError::NoDeparture => "there is no departure from the stop after the selected time".to_owned(),
        }
    }
}

/// The text that [`GtfsError::message`] returns for each error.
pub open spec fn error_text(e: GtfsError) -> &'static str {
    match e {
        GtfsError::IoFailure => "a required file is missing or unreadable",
        GtfsError::SchemaMismatch => "a required column is missing",
        GtfsError::MalformedTime => "a time field is malformed",
        GtfsError::MalformedDate => "a date field is malformed",
        GtfsError::MalformedNumber => "a numeric field is malformed",
        GtfsError::MalformedBool => "a flag field is neither 0 nor 1",
        GtfsError::DanglingReference => "a reference cannot be resolved",
        GtfsError::ScheduleConflict => "the stop times of a trip are inconsistent",
        GtfsError::NotFinalized => "the stop is not finalized yet",
        GtfsError::AlreadyFinalized => "the stop is already finalized",
        GtfsError::UnknownStop => "stop not found",
        GtfsError::NoDeparture => "there is no departure from the stop after the selected time",
    }
}

} // verus!
