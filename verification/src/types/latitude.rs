//! The latitude field, `ddmm.mmmmm` with a north/south hemisphere sign.

use vstd::prelude::*;

use crate::text::{pad2_text, pad3_text, push_pad2_text, push_pad3_text};
use crate::types::{abs_val, parse_coordinate, spec_coordinate};
use vstd::string::StringExecFns;

verus! {

/// A latitude as the combined digit value of its `ddmm.mmmmm` field:
/// degrees and minutes share one integer at a fixed scale of `100000`, and
/// the sign carries the hemisphere (north is non-negative).
#[derive(Copy, Clone, Debug, PartialEq, Eq, Structural)]
pub struct Latitude(pub i32);

impl Default for Latitude {
    fn default() -> (r: Self)
        ensures
            r == Latitude(0),
    {
        Latitude(0)
    }
}

/// The latitude field decoded to its combined digit value.
pub open spec fn spec_latitude(s: Seq<u8>) -> Latitude {
    Latitude(spec_coordinate(s))
}

impl Latitude {
    /// Decodes a latitude field (hemisphere still unsigned; the record
    /// decoders negate on `S`).
    pub fn from_bytes(s: &[u8]) -> (r: Self)
        ensures
            r == spec_latitude(s@),
            r.0 != i32::MIN,
    {
        Latitude(parse_coordinate(s))
    }

    /// The magnitude of the combined digit value, on which the angle
    /// components are read off by place value.
    fn magnitude(self) -> (r: u32)
        ensures
            r as int == abs_val(self.0 as int),
    {
        let v = self.0 as i64;
        if v >= 0 {
            v as u32
        } else {
            (-v) as u32
        }
    }

    /// Whole degrees of the angle's magnitude.
    pub fn degrees(self) -> (r: u8)
        ensures
            r as int == abs_val(self.0 as int) / 10000000,
    {
        (self.magnitude() / 10000000) as u8
    }

    /// Whole minutes of the angle's magnitude.
    pub fn minutes(self) -> (r: u8)
        ensures
            r as int == (abs_val(self.0 as int) / 100000) % 100,
    {
        ((self.magnitude() / 100000) % 100) as u8
    }

    /// The first two fractional-minute digits, displayed as seconds.
    pub fn seconds(self) -> (r: u8)
        ensures
            r as int == (abs_val(self.0 as int) / 1000) % 100,
    {
        ((self.magnitude() / 1000) % 100) as u8
    }

    /// The last three fractional-minute digits.
    pub fn sub_seconds(self) -> (r: u16)
        ensures
            r as int == abs_val(self.0 as int) % 1000,
    {
        (self.magnitude() % 1000) as u16
    }

    /// The angle lies in the northern hemisphere (or on the equator).
    pub fn is_north(self) -> (r: bool)
        ensures
            r == (self.0 >= 0),
    {
        self.0 >= 0
    }

    /// The angle lies in the southern hemisphere.
    pub fn is_south(self) -> (r: bool)
        ensures
            r == (self.0 < 0),
    {
        self.0 < 0
    }
}

/// The angle rendering of a latitude: hemisphere letter, degrees,
/// minutes, and the fractional-minute digits split as seconds.
pub open spec fn latitude_text(v: Latitude) -> Seq<char> {
    (if v.0 >= 0 {
        seq!['N']
    } else {
        seq!['S']
    }) + pad2_text((abs_val(v.0 as int) / 10000000) as nat) + seq!['\u{00b0}']
        + pad2_text(((abs_val(v.0 as int) / 100000) % 100) as nat) + seq!['\'']
        + pad2_text(((abs_val(v.0 as int) / 1000) % 100) as nat) + seq!['"'] + pad3_text(
        (abs_val(v.0 as int) % 1000) as nat,
    )
}

impl Latitude {
    /// Renders the angle with its hemisphere letter.
    pub fn to_text(self) -> (r: String)
        ensures
            r@ == latitude_text(self),
    {
        proof {
            reveal_strlit("N");
            reveal_strlit("S");
            reveal_strlit("\u{00b0}");
            reveal_strlit("'");
            reveal_strlit("\"");
        }
        let mut s = String::new();
        if self.is_north() {
            s.append("N");
        } else {
            s.append("S");
        }
        push_pad2_text(&mut s, self.degrees());
        s.append("\u{00b0}");
        push_pad2_text(&mut s, self.minutes());
        s.append("'");
        push_pad2_text(&mut s, self.seconds());
        s.append("\"");
        push_pad3_text(&mut s, self.sub_seconds());
        proof {
            assert(s@ =~= latitude_text(self));
        }
        s
    }
}

} // verus!
