//! The position-mode (fix quality) field, shared by GGA, GNS and RMC.

use vstd::prelude::*;

verus! {

/// How a position solution was obtained.  GGA encodes it as a digit, GNS and
/// RMC as a letter; both spellings decode to the same variant.
#[derive(Copy, Clone, Debug, PartialEq, Eq, Structural)]
pub enum PositionMode {
    NoFix,
    Estimated,
    Autonomous,
    Differential,
    RealTimeKinematicFloat,
    RealTimeKinematicFixed,
}

impl Default for PositionMode {
    fn default() -> (r: Self)
        ensures
            r == PositionMode::NoFix,
    {
        PositionMode::NoFix
    }
}

/// The mode decoded from the first byte of the field; a missing field and
/// every unknown code read as no fix.
pub open spec fn spec_position_mode(s: Seq<u8>) -> PositionMode {
    let b: u8 = if s.len() == 0 {
        48
    } else {
        s[0]
    };
    if b == 49 || b == 65 {
        PositionMode::Autonomous
    } else if b == 50 || b == 68 {
        PositionMode::Differential
    } else if b == 52 || b == 82 {
        PositionMode::RealTimeKinematicFixed
    } else if b == 53 || b == 70 {
        PositionMode::RealTimeKinematicFloat
    } else if b == 54 || b == 69 {
        PositionMode::Estimated
    } else {
        PositionMode::NoFix
    }
}

impl PositionMode {
    /// Decodes a position-mode field.
    pub fn from_bytes(s: &[u8]) -> (r: Self)
        ensures
            r == spec_position_mode(s@),
    {
        let b: u8 = if s.len() == 0 {
            48
        } else {
            s[0]
        };
        if b == 49 || b == 65 {
            PositionMode::Autonomous
        } else if b == 50 || b == 68 {
            PositionMode::Differential
        } else if b == 52 || b == 82 {
            PositionMode::RealTimeKinematicFixed
        } else if b == 53 || b == 70 {
            PositionMode::RealTimeKinematicFloat
        } else if b == 54 || b == 69 {
            PositionMode::Estimated
        } else {
            PositionMode::NoFix
        }
    }
}

} // verus!
