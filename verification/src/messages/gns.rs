//! The GNS sentence: combined-constellation fix data.

use vstd::prelude::*;

use crate::scan::{eq_single, parse_u8_bytes, spec_parse_u8, split_bytes, split_on, COMMA};
use crate::types::latitude::{spec_latitude, Latitude};
use crate::types::longitude::{spec_longitude, Longitude};
use crate::types::position_mode::{spec_position_mode, PositionMode};
use crate::types::time::{spec_time, Time};
use crate::types::{spec_integer_decimal, IntegerDecimal};
use vstd::slice::slice_subrange;

verus! {

/// A decoded GNS sentence.  One position mode is reported per
/// constellation; the four slots beyond the field's length stay at no fix.
#[derive(Copy, Clone)]
pub struct GNS {
    pub time: Time,
    pub latitude: Latitude,
    pub longitude: Longitude,
    pub position_modes: (PositionMode, PositionMode, PositionMode, PositionMode),
    pub num_satellites: u8,
    pub hdop: IntegerDecimal,
    pub altitude: IntegerDecimal,
}

/// The position mode encoded at byte `i` of the mode field, no fix where
/// the field is too short.
pub open spec fn spec_mode_at(f: Seq<u8>, i: int) -> PositionMode {
    if 0 <= i < f.len() {
        spec_position_mode(seq![f[i]])
    } else {
        PositionMode::NoFix
    }
}

/// The all-default GNS record, produced for payloads with too few fields.
pub open spec fn spec_gns_default() -> GNS {
    GNS {
        time: Time { hour: 0, minute: 0, seconds: 0, sub_seconds: 0 },
        latitude: Latitude(0),
        longitude: Longitude(0),
        position_modes: (
            PositionMode::NoFix,
            PositionMode::NoFix,
            PositionMode::NoFix,
            PositionMode::NoFix,
        ),
        num_satellites: 0,
        hdop: IntegerDecimal { number: 0, decimal_length: 0 },
        altitude: IntegerDecimal { number: 0, decimal_length: 0 },
    }
}

impl Default for GNS {
    fn default() -> (r: Self)
        ensures
            r == spec_gns_default(),
    {
        GNS {
            time: Time::default(),
            latitude: Latitude::default(),
            longitude: Longitude::default(),
            position_modes: (
                PositionMode::default(),
                PositionMode::default(),
                PositionMode::default(),
                PositionMode::default(),
            ),
            num_satellites: 0,
            hdop: IntegerDecimal::default(),
            altitude: IntegerDecimal::default(),
        }
    }
}

/// The GNS field payload decoded positionally: time, latitude and
/// longitude with their hemispheres, one position mode per byte of the mode
/// field, satellite count, horizontal dilution and altitude.  A payload
/// with fewer than nine commas is the default record.
pub open spec fn spec_gns(b: Seq<u8>) -> GNS {
    let fs = split_on(b, COMMA);
    if fs.len() < 10 {
        spec_gns_default()
    } else {
        let lat0 = spec_latitude(fs[1]);
        let lat = if fs[2] == seq![83u8] {
            Latitude((-lat0.0) as i32)
        } else {
            lat0
        };
        let lon0 = spec_longitude(fs[3]);
        let lon = if fs[4] == seq![87u8] {
            Longitude((-lon0.0) as i32)
        } else {
            lon0
        };
        GNS {
            time: spec_time(fs[0]),
            latitude: lat,
            longitude: lon,
            position_modes: (
                spec_mode_at(fs[5], 0),
                spec_mode_at(fs[5], 1),
                spec_mode_at(fs[5], 2),
                spec_mode_at(fs[5], 3),
            ),
            num_satellites: match spec_parse_u8(fs[6]) {
                Some(v) => v,
                None => 0,
            },
            hdop: spec_integer_decimal(fs[7]),
            altitude: spec_integer_decimal(fs[8]),
        }
    }
}

/// Reads the position mode at byte `i` of the mode field.
fn mode_at(f: &[u8], i: usize) -> (r: PositionMode)
    ensures
        r == spec_mode_at(f@, i as int),
{
    if i < f.len() {
        let one = slice_subrange(f, i, i + 1);
        proof {
            assert(one@ =~= seq![f@[i as int]]);
        }
        PositionMode::from_bytes(one)
    } else {
        PositionMode::default()
    }
}

impl GNS {
    /// Decodes a GNS field payload.
    pub fn from_bytes(bytes: &[u8]) -> (r: Self)
        ensures
            r == spec_gns(bytes@),
    {
        let fields = split_bytes(bytes, COMMA);
        if fields.len() < 10 {
            return GNS::default();
        }
        let time = Time::from_bytes(fields[0].as_slice());
        let mut latitude = Latitude::from_bytes(fields[1].as_slice());
        if eq_single(fields[2].as_slice(), 83) {
            latitude.0 = -latitude.0;
        }
        let mut longitude = Longitude::from_bytes(fields[3].as_slice());
        if eq_single(fields[4].as_slice(), 87) {
            longitude.0 = -longitude.0;
        }
        let modes = fields[5].as_slice();
        let position_modes = (
            mode_at(modes, 0),
            mode_at(modes, 1),
            mode_at(modes, 2),
            mode_at(modes, 3),
        );
        let num_satellites = match parse_u8_bytes(fields[6].as_slice()) {
            Some(v) => v,
            None => 0,
        };
        let hdop = IntegerDecimal::from_bytes(fields[7].as_slice());
        let altitude = IntegerDecimal::from_bytes(fields[8].as_slice());
        GNS { time, latitude, longitude, position_modes, num_satellites, hdop, altitude }
    }
}

} // verus!
