//! The UTC time-of-day field, `hhmmss.ss`.

use vstd::prelude::*;

use crate::scan::{parse_u32_bytes, parse_u8_bytes, split_bytes, split_on, spec_parse_u32,
    spec_parse_u8, DOT};
use crate::text::{pad2_text, push_pad2_text};
use vstd::string::StringExecFns;

verus! {

/// A UTC time of day split into its clock components.
#[derive(Copy, Clone, Debug, PartialEq, Eq, Structural)]
pub struct Time {
    pub hour: u8,
    pub minute: u8,
    pub seconds: u8,
    pub sub_seconds: u8,
}

impl Default for Time {
    fn default() -> (r: Self)
        ensures
            r == (Time { hour: 0, minute: 0, seconds: 0, sub_seconds: 0 }),
    {
        Time { hour: 0, minute: 0, seconds: 0, sub_seconds: 0 }
    }
}

/// A time field decoded from `hhmmss.ss`.  An empty field or one without a
/// decimal point is the zero time; each part that fails to parse reads as
/// zero; the clock components come out of the digits by place value.
pub open spec fn spec_time(s: Seq<u8>) -> Time {
    if s.len() == 0 {
        Time { hour: 0, minute: 0, seconds: 0, sub_seconds: 0 }
    } else {
        let parts = split_on(s, DOT);
        if parts.len() == 1 {
            Time { hour: 0, minute: 0, seconds: 0, sub_seconds: 0 }
        } else {
            let hhmmss = match spec_parse_u32(parts[0]) {
                Some(v) => v as int,
                None => 0,
            };
            let sub = match spec_parse_u8(parts[1]) {
                Some(v) => v,
                None => 0,
            };
            Time {
                hour: ((hhmmss / 10000) % 256) as u8,
                minute: ((hhmmss / 100) % 100) as u8,
                seconds: (hhmmss % 100) as u8,
                sub_seconds: sub,
            }
        }
    }
}

impl Time {
    /// Decodes a time field.
    pub fn from_bytes(s: &[u8]) -> (r: Self)
        ensures
            r == spec_time(s@),
    {
        if s.len() == 0 {
            return Time { hour: 0, minute: 0, seconds: 0, sub_seconds: 0 };
        }
        let parts = split_bytes(s, DOT);
        proof {
            crate::scan::lemma_split_on_len(s@, DOT);
        }
        if parts.len() == 1 {
            return Time { hour: 0, minute: 0, seconds: 0, sub_seconds: 0 };
        }
        let hhmmss: u32 = match parse_u32_bytes(parts[0].as_slice()) {
            Some(v) => v,
            None => 0,
        };
        let sub: u8 = match parse_u8_bytes(parts[1].as_slice()) {
            Some(v) => v,
            None => 0,
        };
        Time {
            hour: ((hhmmss / 10000) % 256) as u8,
            minute: ((hhmmss / 100) % 100) as u8,
            seconds: (hhmmss % 100) as u8,
            sub_seconds: sub,
        }
    }
}

/// The clock rendering `hh:mm:ss.ss` of a time.
pub open spec fn time_text(t: Time) -> Seq<char> {
    pad2_text(t.hour as nat) + seq![':'] + pad2_text(t.minute as nat) + seq![':'] + pad2_text(
        t.seconds as nat,
    ) + seq!['.'] + pad2_text(t.sub_seconds as nat)
}

impl Time {
    /// Renders the time as `hh:mm:ss.ss`.
    pub fn to_text(self) -> (r: String)
        ensures
            r@ == time_text(self),
    {
        proof {
            reveal_strlit(":");
            reveal_strlit(".");
        }
        let mut s = String::new();
        push_pad2_text(&mut s, self.hour);
        s.append(":");
        push_pad2_text(&mut s, self.minute);
        s.append(":");
        push_pad2_text(&mut s, self.seconds);
        s.append(".");
        push_pad2_text(&mut s, self.sub_seconds);
        proof {
            assert(s@ =~= time_text(self));
        }
        s
    }
}

} // verus!
