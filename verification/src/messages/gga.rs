//! The GGA sentence: time, position and fix-related data.

use vstd::prelude::*;

use crate::scan::{eq_single, split_bytes, split_on, parse_u8_bytes, spec_parse_u8, COMMA};
use crate::types::latitude::{spec_latitude, Latitude};
use crate::types::longitude::{spec_longitude, Longitude};
use crate::types::position_mode::spec_position_mode;
use crate::types::time::{spec_time, Time};
use crate::types::{spec_integer_decimal, IntegerDecimal, Quality};

verus! {

/// A decoded GGA sentence.
#[derive(Copy, Clone, Debug)]
pub struct GGA {
    pub time: Time,
    pub latitude: Latitude,
    pub longitude: Longitude,
    pub quality: Quality,
    pub num_satellites: u8,
    pub hdop: IntegerDecimal,
    /// metres above mean sea level
    pub altitude: IntegerDecimal,
}

/// The all-default GGA record, produced for payloads with too few fields.
pub open spec fn spec_gga_default() -> GGA {
    GGA {
        time: Time { hour: 0, minute: 0, seconds: 0, sub_seconds: 0 },
        latitude: Latitude(0),
        longitude: Longitude(0),
        quality: Quality::NoFix,
        num_satellites: 0,
        hdop: IntegerDecimal { number: 0, decimal_length: 0 },
        altitude: IntegerDecimal { number: 0, decimal_length: 0 },
    }
}

impl Default for GGA {
    fn default() -> (r: Self)
        ensures
            r == spec_gga_default(),
    {
        GGA {
            time: Time::default(),
            latitude: Latitude::default(),
            longitude: Longitude::default(),
            quality: Quality::default(),
            num_satellites: 0,
            hdop: IntegerDecimal::default(),
            altitude: IntegerDecimal::default(),
        }
    }
}

/// The GGA field payload decoded positionally: time, latitude with its
/// hemisphere, longitude with its hemisphere, quality, satellite count,
/// horizontal dilution and altitude.  A payload with fewer than nine commas
/// is the default record.
pub open spec fn spec_gga(b: Seq<u8>) -> GGA {
    let fs = split_on(b, COMMA);
    if fs.len() < 10 {
        spec_gga_default()
    } else {
        let lat0 = spec_latitude(fs[1]);
        let lat = if fs[2] == seq![83u8] {
            Latitude((-lat0.0) as i32)
        } else {
            lat0
        };
        let lon0 = spec_longitude(fs[3]);
        let lon = if fs[4] == seq![87u8] {
            Longitude((-lon0.0) as i32)
        } else {
            lon0
        };
        GGA {
            time: spec_time(fs[0]),
            latitude: lat,
            longitude: lon,
            quality: spec_position_mode(fs[5]),
            num_satellites: match spec_parse_u8(fs[6]) {
                Some(v) => v,
                None => 0,
            },
            hdop: spec_integer_decimal(fs[7]),
            altitude: spec_integer_decimal(fs[8]),
        }
    }
}

impl GGA {
    /// Decodes a GGA field payload.
    pub fn from_bytes(bytes: &[u8]) -> (r: Self)
        ensures
            r == spec_gga(bytes@),
    {
        let fields = split_bytes(bytes, COMMA);
        if fields.len() < 10 {
            return GGA::default();
        }
        let time = Time::from_bytes(fields[0].as_slice());
        let mut latitude = Latitude::from_bytes(fields[1].as_slice());
        if eq_single(fields[2].as_slice(), 83) {
            latitude.0 = -latitude.0;
        }
        let mut longitude = Longitude::from_bytes(fields[3].as_slice());
        if eq_single(fields[4].as_slice(), 87) {
            longitude.0 = -longitude.0;
        }
        let quality = Quality::from_bytes(fields[5].as_slice());
        let num_satellites = match parse_u8_bytes(fields[6].as_slice()) {
            Some(v) => v,
            None => 0,
        };
        let hdop = IntegerDecimal::from_bytes(fields[7].as_slice());
        let altitude = IntegerDecimal::from_bytes(fields[8].as_slice());
        GGA { time, latitude, longitude, quality, num_satellites, hdop, altitude }
    }
}

} // verus!
