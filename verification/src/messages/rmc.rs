//! The RMC sentence: the recommended minimum of position, speed and time.

use vstd::prelude::*;

use crate::scan::{eq_single, split_bytes, split_on, COMMA};
use crate::types::date::{spec_date, Date};
use crate::types::latitude::{spec_latitude, Latitude};
use crate::types::longitude::{spec_longitude, Longitude};
use crate::types::position_mode::{spec_position_mode, PositionMode};
use crate::types::time::{spec_time, Time};
use crate::types::{
    lemma_integer_decimal_len, pow10, spec_integer_decimal, spec_status, IntegerDecimal, Status,
};

verus! {

/// A decoded RMC sentence.
#[derive(Copy, Clone, Debug)]
pub struct RMC {
    pub time: Time,
    pub status: Status,
    pub latitude: Latitude,
    pub longitude: Longitude,
    /// knots
    pub speed: IntegerDecimal,
    pub course: IntegerDecimal,
    pub date: Date,
    pub heading: Option<IntegerDecimal>,
    pub position_mode: PositionMode,
}

/// The all-default RMC record, produced for payloads with too few fields.
pub open spec fn spec_rmc_default() -> RMC {
    RMC {
        time: Time { hour: 0, minute: 0, seconds: 0, sub_seconds: 0 },
        status: Status(false),
        latitude: Latitude(0),
        longitude: Longitude(0),
        speed: IntegerDecimal { number: 0, decimal_length: 0 },
        course: IntegerDecimal { number: 0, decimal_length: 0 },
        date: Date { year: 0, month: 0, day: 0 },
        heading: None,
        position_mode: PositionMode::NoFix,
    }
}

impl Default for RMC {
    fn default() -> (r: Self)
        ensures
            r == spec_rmc_default(),
    {
        RMC {
            time: Time::default(),
            status: Status::default(),
            latitude: Latitude::default(),
            longitude: Longitude::default(),
            speed: IntegerDecimal::default(),
            course: IntegerDecimal::default(),
            date: Date::default(),
            heading: None,
            position_mode: PositionMode::default(),
        }
    }
}

/// The magnetic-variation heading: absent when its field is empty, and
/// wrapped by 180 whole degrees (on the field's own decimal scale) when the
/// variation points west.  A wrap that would not fit the carrier leaves the
/// value unwrapped.
pub open spec fn spec_heading(field: Seq<u8>, west: Seq<u8>) -> Option<IntegerDecimal> {
    if field.len() == 0 {
        None
    } else {
        let h = spec_integer_decimal(field);
        if west == seq![87u8] {
            let n = h.number + 180 * pow10(h.decimal_length as nat);
            Some(
                IntegerDecimal {
                    number: if -0x8000_0000 <= n <= 0x7FFF_FFFF {
                        n as i32
                    } else {
                        h.number
                    },
                    decimal_length: h.decimal_length,
                },
            )
        } else {
            Some(h)
        }
    }
}

/// The RMC field payload decoded positionally: time, status, latitude and
/// longitude with their hemispheres, speed, course, date, magnetic
/// variation with its direction, and position mode.  A payload with fewer
/// than eleven commas is the default record.
pub open spec fn spec_rmc(b: Seq<u8>) -> RMC {
    let fs = split_on(b, COMMA);
    if fs.len() < 12 {
        spec_rmc_default()
    } else {
        let lat0 = spec_latitude(fs[2]);
        let lat = if fs[3] == seq![83u8] {
            Latitude((-lat0.0) as i32)
        } else {
            lat0
        };
        let lon0 = spec_longitude(fs[4]);
        let lon = if fs[5] == seq![87u8] {
            Longitude((-lon0.0) as i32)
        } else {
            lon0
        };
        RMC {
            time: spec_time(fs[0]),
            status: spec_status(fs[1]),
            latitude: lat,
            longitude: lon,
            speed: spec_integer_decimal(fs[6]),
            course: spec_integer_decimal(fs[7]),
            date: spec_date(fs[8]),
            heading: spec_heading(fs[9], fs[10]),
            position_mode: spec_position_mode(fs[11]),
        }
    }
}

impl RMC {
    /// Decodes an RMC field payload.
    pub fn from_bytes(bytes: &[u8]) -> (r: Self)
        ensures
            r == spec_rmc(bytes@),
    {
        let fields = split_bytes(bytes, COMMA);
        if fields.len() < 12 {
            return RMC::default();
        }
        let time = Time::from_bytes(fields[0].as_slice());
        let status = Status::from_bytes(fields[1].as_slice());
        let mut latitude = Latitude::from_bytes(fields[2].as_slice());
        if eq_single(fields[3].as_slice(), 83) {
            latitude.0 = -latitude.0;
        }
        let mut longitude = Longitude::from_bytes(fields[4].as_slice());
        if eq_single(fields[5].as_slice(), 87) {
            longitude.0 = -longitude.0;
        }
        let speed = IntegerDecimal::from_bytes(fields[6].as_slice());
        let course = IntegerDecimal::from_bytes(fields[7].as_slice());
        let date = Date::from_bytes(fields[8].as_slice());
        let heading: Option<IntegerDecimal> = if fields[9].len() > 0 {
            let mut value = IntegerDecimal::from_bytes(fields[9].as_slice());
            proof {
                lemma_integer_decimal_len(fields@[9]@);
            }
            if eq_single(fields[10].as_slice(), 87) {
                value.add_whole(180);
            }
            Some(value)
        } else {
            None
        };
        let position_mode = PositionMode::from_bytes(fields[11].as_slice());
        RMC {
            time,
            status,
            latitude,
            longitude,
            speed,
            course,
            date,
            heading,
            position_mode,
        }
    }
}

} // verus!
