//! The GSA sentence: satellite selection and operation mode.

use vstd::prelude::*;

use crate::scan::{split_bytes, split_on, COMMA};
use crate::types::{spec_navigation_mode, spec_operation_mode, NavigationMode, OperationMode};

verus! {

/// A decoded GSA sentence (only the leading mode fields are kept).
#[derive(Copy, Clone, Debug)]
pub struct GSA {
    pub operation_mode: OperationMode,
    pub navigation_mode: NavigationMode,
}

/// The all-default GSA record, produced for payloads with too few fields.
pub open spec fn spec_gsa_default() -> GSA {
    GSA { operation_mode: OperationMode::Manual, navigation_mode: NavigationMode::NoFix }
}

impl Default for GSA {
    fn default() -> (r: Self)
        ensures
            r == spec_gsa_default(),
    {
        GSA {
            operation_mode: OperationMode::default(),
            navigation_mode: NavigationMode::default(),
        }
    }
}

/// The GSA field payload decoded positionally: operation mode then
/// navigation mode.  A payload without a comma is the default record.
pub open spec fn spec_gsa(b: Seq<u8>) -> GSA {
    let fs = split_on(b, COMMA);
    if fs.len() < 2 {
        spec_gsa_default()
    } else {
        GSA {
            operation_mode: spec_operation_mode(fs[0]),
            navigation_mode: spec_navigation_mode(fs[1]),
        }
    }
}

impl GSA {
    /// Decodes a GSA field payload.
    pub fn from_bytes(bytes: &[u8]) -> (r: Self)
        ensures
            r == spec_gsa(bytes@),
    {
        let fields = split_bytes(bytes, COMMA);
        if fields.len() < 2 {
            return GSA::default();
        }
        let operation_mode = OperationMode::from_bytes(fields[0].as_slice());
        let navigation_mode = NavigationMode::from_bytes(fields[1].as_slice());
        GSA { operation_mode, navigation_mode }
    }
}

} // verus!
