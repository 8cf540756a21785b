//! The longitude field, `dddmm.mmmmm` with an east/west hemisphere sign.

use vstd::prelude::*;

use crate::text::{pad2_text, pad3_text, push_pad2_text, push_pad3_text};
use crate::types::{abs_val, parse_coordinate, spec_coordinate};
use vstd::string::StringExecFns;

verus! {

/// A longitude as the combined digit value of its `dddmm.mmmmm` field:
/// degrees and minutes share one integer at a fixed scale of `100000`, and
/// the sign carries the hemisphere (east is non-negative).
#[derive(Copy, Clone, Debug, PartialEq, Eq, Structural)]
pub struct Longitude(pub i32);

impl Default for Longitude {
    fn default() -> (r: Self)
        ensures
            r == Longitude(0),
    {
        Longitude(0)
    }
}

/// The longitude field decoded to its combined digit value.
pub open spec fn spec_longitude(s: Seq<u8>) -> Longitude {
    Longitude(spec_coordinate(s))
}

impl Longitude {
    /// Decodes a longitude field (hemisphere still unsigned; the record
    /// decoders negate on `W`).
    pub fn from_bytes(s: &[u8]) -> (r: Self)
        ensures
            r == spec_longitude(s@),
            r.0 != i32::MIN,
    {
        Longitude(parse_coordinate(s))
    }

    /// The magnitude of the combined digit value, on which the angle
    /// components are read off by place value.
    fn magnitude(self) -> (r: u32)
        ensures
            r as int == abs_val(self.0 as int),
    {
        let v = self.0 as i64;
        if v >= 0 {
            v as u32
        } else {
            (-v) as u32
        }
    }

    /// Whole degrees of the angle's magnitude.
    pub fn degrees(self) -> (r: u8)
        ensures
            r as int == abs_val(self.0 as int) / 10000000,
    {
        (self.magnitude() / 10000000) as u8
    }

    /// Whole minutes of the angle's magnitude.
    pub fn minutes(self) -> (r: u8)
        ensures
            r as int == (abs_val(self.0 as int) / 100000) % 100,
    {
        ((self.magnitude() / 100000) % 100) as u8
    }

    /// The first two fractional-minute digits, displayed as seconds.
    pub fn seconds(self) -> (r: u8)
        ensures
            r as int == (abs_val(self.0 as int) / 1000) % 100,
    {
        ((self.magnitude() / 1000) % 100) as u8
    }

    /// The last three fractional-minute digits.
    pub fn sub_seconds(self) -> (r: u16)
        ensures
            r as int == abs_val(self.0 as int) % 1000,
    {
        (self.magnitude() % 1000) as u16
    }

    /// The angle lies in the eastern hemisphere (or on the meridian).
    pub fn is_east(self) -> (r: bool)
        ensures
            r == (self.0 >= 0),
    {
        self.0 >= 0
    }

    /// The angle lies in the western hemisphere.
    pub fn is_west(self) -> (r: bool)
        ensures
            r == (self.0 < 0),
    {
        self.0 < 0
    }
}

/// The angle rendering of a longitude: hemisphere letter, degrees,
/// minutes, and the fractional-minute digits split as seconds.
pub open spec fn longitude_text(v: Longitude) -> Seq<char> {
    (if v.0 >= 0 {
        seq!['E']
    } else {
        seq!['W']
    }) + pad3_text((abs_val(v.0 as int) / 10000000) as nat) + seq!['\u{00b0}']
        + pad2_text(((abs_val(v.0 as int) / 100000) % 100) as nat) + seq!['\'']
        + pad2_text(((abs_val(v.0 as int) / 1000) % 100) as nat) + seq!['"'] + pad3_text(
        (abs_val(v.0 as int) % 1000) as nat,
    )
}

impl Longitude {
    /// Renders the angle with its hemisphere letter.
    pub fn to_text(self) -> (r: String)
        ensures
            r@ == longitude_text(self),
    {
        proof {
            reveal_strlit("E");
            reveal_strlit("W");
            reveal_strlit("\u{00b0}");
            reveal_strlit("'");
            reveal_strlit("\"");
        }
        let mut s = String::new();
        if self.is_east() {
            s.append("E");
        } else {
            s.append("W");
        }
        push_pad3_text(&mut s, self.degrees() as u16);
        s.append("\u{00b0}");
        push_pad2_text(&mut s, self.minutes());
        s.append("'");
        push_pad2_text(&mut s, self.seconds());
        s.append("\"");
        push_pad3_text(&mut s, self.sub_seconds());
        proof {
            assert(s@ =~= longitude_text(self));
        }
        s
    }
}

} // verus!
