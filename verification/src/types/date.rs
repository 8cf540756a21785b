//! The calendar date field, `ddmmyy`.

use vstd::prelude::*;

use crate::scan::{parse_u32_bytes, spec_parse_u32};
use crate::text::{pad2_text, push_pad2_text};

verus! {

/// A calendar date split into its components (two digits each).
#[derive(Copy, Clone, Debug, PartialEq, Eq, Structural)]
pub struct Date {
    pub year: u8,
    pub month: u8,
    pub day: u8,
}

impl Default for Date {
    fn default() -> (r: Self)
        ensures
            r == (Date { year: 0, month: 0, day: 0 }),
    {
        Date { year: 0, month: 0, day: 0 }
    }
}

/// A date field decoded from `ddmmyy` by place value; a field that fails to
/// parse reads as the zero date.
pub open spec fn spec_date(s: Seq<u8>) -> Date {
    let ddmmyy = match spec_parse_u32(s) {
        Some(v) => v as int,
        None => 0,
    };
    Date {
        year: (ddmmyy % 100) as u8,
        month: ((ddmmyy / 100) % 100) as u8,
        day: ((ddmmyy / 10000) % 256) as u8,
    }
}

impl Date {
    /// Decodes a date field.
    pub fn from_bytes(s: &[u8]) -> (r: Self)
        ensures
            r == spec_date(s@),
    {
        let ddmmyy: u32 = match parse_u32_bytes(s) {
            Some(v) => v,
            None => 0,
        };
        Date {
            year: (ddmmyy % 100) as u8,
            month: ((ddmmyy / 100) % 100) as u8,
            day: ((ddmmyy / 10000) % 256) as u8,
        }
    }
}

/// The rendering `yymmdd` of a date (year, month, day, two digits each).
pub open spec fn date_text(d: Date) -> Seq<char> {
    pad2_text(d.year as nat) + pad2_text(d.month as nat) + pad2_text(d.day as nat)
}

impl Date {
    /// Renders the date as `yymmdd`.
    pub fn to_text(self) -> (r: String)
        ensures
            r@ == date_text(self),
    {
        let mut s = String::new();
        push_pad2_text(&mut s, self.year);
        push_pad2_text(&mut s, self.month);
        push_pad2_text(&mut s, self.day);
        proof {
            assert(s@ =~= date_text(self));
        }
        s
    }
}

} // verus!
