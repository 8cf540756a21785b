//! The per-sentence records and their field decoders.  Each decoder takes
//! the comma-separated field payload that follows the sentence code and is
//! lenient: a payload with fewer fields than the sentence needs yields the
//! record's default value, and malformed fields read as zero.

pub mod gga;
pub mod gns;
pub mod gsa;
pub mod rmc;
