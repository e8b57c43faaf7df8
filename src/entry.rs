//! One record line: `<timestamp>|<version>|<max>:<v1>,<v2>,...,<vn>`.

use chrono::{Datelike, Timelike};
use vstd::prelude::*;

use crate::text::{after, before, find_char_in, int_of, lemma_after_shorter, parse_int};

verus! {

/// A minute of a calendar day in UTC.
#[derive(Clone, Copy, Debug, PartialEq, Eq, Structural)]
pub struct Timestamp {
    pub year: i32,
    pub month: u32,
    pub day: u32,
    pub hour: u32,
    pub minute: u32,
}

impl Timestamp {
    pub open spec fn fields(self) -> (i32, u32, u32, u32, u32) {
        (self.year, self.month, self.day, self.hour, self.minute)
    }

    /// Each field lies in the range of its unit.
    pub open spec fn wf(self) -> bool {
        &&& 1 <= self.month <= 12
        &&& 1 <= self.day <= 31
        &&& self.hour < 24
        &&& self.minute < 60
    }
}

/// The date and time that chrono reads from `s` with the pattern `%F %R`.
pub uninterp spec fn date_time_of(s: Seq<char>) -> Option<(i32, u32, u32, u32, u32)>;

#[verifier::external_type_specification]
#[verifier::external_body]
pub struct ExParseError(chrono::ParseError);

/// Relies on chrono's `NaiveDateTime::parse_from_str` with the pattern `%F %R`, whose
/// result depends on the text alone, and on the calendar getters of the value it
/// returns (month and day count from 1, hour and minute from 0).
#[verifier::external_body]
fn parse_date_time(s: &str) -> (r: Result<Timestamp, chrono::ParseError>)
    ensures
        match r {
            Ok(t) => date_time_of(s@) == Some(t.fields()) && t.wf(),
            Err(_) => date_time_of(s@) is None,
        },
{
    match chrono::NaiveDateTime::parse_from_str(s, "%F %R") {
        Ok(d) => Ok(Timestamp {
            year: d.year(),
            month: d.month(),
            day: d.day(),
            hour: d.hour(),
            minute: d.minute(),
        }),
        Err(e) => Err(e),
    }
}

/// The ways a line can break the structure of a record.
#[derive(Clone, Copy, Debug, PartialEq, Eq, Structural)]
pub enum Malformed {
    MissingTimestamp,
    MissingVersion,
    MissingData,
    BadData,
}

pub open spec fn reason_text(m: Malformed) -> Seq<char> {
    match m {
        Malformed::MissingTimestamp => "missing timestamp"@,
        Malformed::MissingVersion => "missing version"@,
        Malformed::MissingData => "missing data segment"@,
        Malformed::BadData => "bad data segment"@,
    }
}

impl Malformed {
    /// The fixed description of the fault.
    pub fn reason(&self) -> (r: &'static str)
        ensures
            r@ == reason_text(*self),
    {
        match self {
            Malformed::MissingTimestamp => "missing timestamp",
            Malformed::MissingVersion => "missing version",
            Malformed::MissingData => "missing data segment",
            Malformed::BadData => "bad data segment",
        }
    }
}

/// What went wrong with a line, as the contracts speak of it.
pub enum Fault {
    Date,
    Int(Seq<char>),
    Format(Malformed),
}

/// Why a line is not a record.
#[derive(Debug)]
pub enum ParseEntryError {
    /// The timestamp field is not a date and time of the form `YYYY-MM-DD HH:MM`.
    ParseDate(chrono::ParseError),
    /// This text was to be an `i32` and is not one.
    ParseInt(String),
    /// The line does not have the shape of a record.
    Format(Malformed),
}

impl ParseEntryError {
    pub open spec fn fault(&self) -> Fault {
        match self {
            ParseEntryError::ParseDate(_) => Fault::Date,
            ParseEntryError::ParseInt(t) => Fault::Int(t@),
            ParseEntryError::Format(m) => Fault::Format(*m),
        }
    }
}

/// The comma-separated integers of `s`, or the first piece that is not one.
pub open spec fn values_of(s: Seq<char>) -> Result<Seq<i32>, Seq<char>>
    decreases s.len(),
    via values_of_decreases
{
    match int_of(before(s, ',')) {
        None => Err(before(s, ',')),
        Some(v) => match after(s, ',') {
            None => Ok(seq![v]),
            Some(rest) => match values_of(rest) {
                Ok(vs) => Ok(seq![v] + vs),
                Err(t) => Err(t),
            },
        },
    }
}

#[via_fn]
proof fn values_of_decreases(s: Seq<char>) {
    lemma_after_shorter(s, ',');
}

pub open spec fn prepend(p: Seq<i32>, r: Result<Seq<i32>, Seq<char>>) -> Result<
    Seq<i32>,
    Seq<char>,
> {
    match r {
        Ok(vs) => Ok(p + vs),
        Err(t) => Err(t),
    }
}

/// Reads a comma-separated list of `i32`; on failure hands back the first piece that is
/// not one. An empty text is one empty piece, and so fails.
pub fn parse_values(s: &str) -> (r: Result<Vec<i32>, String>)
    ensures
        r matches Ok(v) ==> v@.len() > 0,
        match r {
            Ok(v) => values_of(s@) == Ok::<Seq<i32>, Seq<char>>(v@),
            Err(t) => values_of(s@) == Err::<Seq<i32>, Seq<char>>(t@),
        },
{
    let mut out: Vec<i32> = Vec::new();
    let mut rest: &str = s;
    loop
        invariant
            values_of(s@) == prepend(out@, values_of(rest@)),
        decreases rest@.len(),
    {
        let comma = find_char_in(rest, ',');
        let n = rest.unicode_len();
        let end: usize = match comma {
            Some(i) => i,
            None => n,
        };
        let piece = rest.substring_char(0, end);
        assert(piece@ == before(rest@, ','));
        match parse_int(piece) {
            None => {
                return Err(piece.to_owned());
            },
            Some(v) => {
                let ghost prior = out@;
                out.push(v);
                match comma {
                    None => {
                        assert(prior + seq![v] =~= out@);
                        assert(values_of(s@) == Ok::<Seq<i32>, Seq<char>>(out@));
                        return Ok(out);
                    },
                    Some(i) => {
                        let next = rest.substring_char(i + 1, n);
                        proof {
                            lemma_after_shorter(rest@, ',');
                            assert(after(rest@, ',') == Some(next@));
                            match values_of(next@) {
                                Ok(vs) => {
                                    assert(prior + (seq![v] + vs) =~= out@ + vs);
                                },
                                Err(_) => {},
                            }
                        }
                        rest = next;
                    },
                }
            },
        }
    }
}

/// One parsed line.
#[derive(Debug)]
pub struct Entry {
    pub timestamp: Timestamp,
    pub version: String,
    pub max: i32,
    pub values: Vec<i32>,
}

/// The version, key and values of a line whose timestamp field has been read: the
/// fields are cut at `|`, the data field at its first `:`. Fields after the third
/// are not read.
pub open spec fn line_fields(line: Seq<char>) -> Result<(Seq<char>, i32, Seq<i32>), Fault> {
    match after(line, '|') {
        None => Err(Fault::Format(Malformed::MissingVersion)),
        Some(r1) => match after(r1, '|') {
            None => Err(Fault::Format(Malformed::MissingData)),
            Some(r2) => {
                let data = before(r2, '|');
                match after(data, ':') {
                    None => Err(Fault::Format(Malformed::BadData)),
                    Some(right) => match int_of(before(data, ':')) {
                        None => Err(Fault::Int(before(data, ':'))),
                        Some(m) => match values_of(right) {
                            Ok(vs) => Ok((before(r1, '|'), m, vs)),
                            Err(t) => Err(Fault::Int(t)),
                        },
                    },
                }
            },
        },
    }
}

/// The key and values of a whole line, or the first fault in it.
pub open spec fn line_record(line: Seq<char>) -> Result<(i32, Seq<i32>), Fault> {
    if line.len() == 0 {
        Err(Fault::Format(Malformed::MissingTimestamp))
    } else if date_time_of(before(line, '|')) is None {
        Err(Fault::Date)
    } else {
        match line_fields(line) {
            Ok((_, m, vs)) => Ok((m, vs)),
            Err(f) => Err(f),
        }
    }
}

/// `r` is what reading the fields of `line` gives, with `stamp` as its timestamp.
pub open spec fn fields_outcome(
    line: Seq<char>,
    stamp: Timestamp,
    r: Result<Entry, ParseEntryError>,
) -> bool {
    match line_fields(line) {
        Ok((ver, m, vs)) => r matches Ok(e) && e.timestamp == stamp && e.version@ == ver
            && e.max == m && e.values@ == vs,
        Err(f) => r matches Err(e) && e.fault() == f,
    }
}

impl Entry {
    /// Timestamp in range, at least one value.
    pub open spec fn wf(&self) -> bool {
        self.timestamp.wf() && self.values@.len() > 0
    }

    /// Reads the fields after the timestamp of `line`, given the timestamp read from
    /// its first field.
    pub fn parse_with_stamp(line: &str, stamp: Timestamp) -> (r: Result<Entry, ParseEntryError>)
        ensures
            fields_outcome(line@, stamp, r),
            r matches Ok(e) ==> e.values@.len() > 0,
    {
        let n = line.unicode_len();
        let i = match find_char_in(line, '|') {
            None => {
                return Err(ParseEntryError::Format(Malformed::MissingVersion));
            },
            Some(i) => i,
        };
        proof {
            lemma_after_shorter(line@, '|');
        }
        let r1 = line.substring_char(i + 1, n);
        let n1 = r1.unicode_len();
        let j = match find_char_in(r1, '|') {
            None => {
                return Err(ParseEntryError::Format(Malformed::MissingData));
            },
            Some(j) => j,
        };
        proof {
            lemma_after_shorter(r1@, '|');
        }
        let version = r1.substring_char(0, j).to_owned();
        let r2 = r1.substring_char(j + 1, n1);
        let n2 = r2.unicode_len();
        let end: usize = match find_char_in(r2, '|') {
            None => n2,
            Some(k) => k,
        };
        let data = r2.substring_char(0, end);
        assert(data@ == before(r2@, '|'));
        let nd = data.unicode_len();
        let c = match find_char_in(data, ':') {
            None => {
                return Err(ParseEntryError::Format(Malformed::BadData));
            },
            Some(c) => c,
        };
        proof {
            lemma_after_shorter(data@, ':');
        }
        let left = data.substring_char(0, c);
        let right = data.substring_char(c + 1, nd);
        let max = match parse_int(left) {
            None => {
                return Err(ParseEntryError::ParseInt(left.to_owned()));
            },
            Some(m) => m,
        };
        match parse_values(right) {
            Err(t) => Err(ParseEntryError::ParseInt(t)),
            Ok(values) => Ok(Entry { timestamp: stamp, version, max, values }),
        }
    }

    /// Reads one line: the timestamp field first, then the others.
    pub fn parse(line: &str) -> (r: Result<Entry, ParseEntryError>)
        ensures
            line@.len() == 0 ==> (r matches Err(e) && e.fault() == Fault::Format(
                Malformed::MissingTimestamp,
            )),
            line@.len() > 0 && date_time_of(before(line@, '|')) is None ==> (r matches Err(e)
                && e.fault() == Fault::Date),
            line@.len() > 0 ==> (date_time_of(before(line@, '|')) matches Some(t) ==> exists|
                stamp: Timestamp,
            | stamp.fields() == t && stamp.wf() && #[trigger] fields_outcome(line@, stamp, r)),
            match r {
                Ok(e) => line_record(line@) == Ok::<(i32, Seq<i32>), Fault>((e.max, e.values@))
                    && e.wf(),
                Err(e) => line_record(line@) == Err::<(i32, Seq<i32>), Fault>(e.fault()),
            },
    {
        let n = line.unicode_len();
        if n == 0 {
            return Err(ParseEntryError::Format(Malformed::MissingTimestamp));
        }
        let end: usize = match find_char_in(line, '|') {
            None => n,
            Some(k) => k,
        };
        let head = line.substring_char(0, end);
        assert(head@ == before(line@, '|'));
        match parse_date_time(head) {
            Err(e) => Err(ParseEntryError::ParseDate(e)),
            Ok(stamp) => Entry::parse_with_stamp(line, stamp),
        }
    }
}

impl std::str::FromStr for Entry {
    type Err = ParseEntryError;

    fn from_str(s: &str) -> Result<Entry, ParseEntryError> {
        Entry::parse(s)
    }
}

} // verus!
