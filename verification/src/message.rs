//! Sentence recognition and the frame/checksum validator: the closed
//! registry of sentence codes with their enable-mask bits, and the decoder
//! that checks a line's XOR checksum and dispatches its payload to the
//! matching record decoder.

use vstd::prelude::*;

use crate::messages::gga::{spec_gga, GGA};
use crate::messages::gns::{spec_gns, GNS};
use crate::messages::gsa::{spec_gsa, GSA};
use crate::messages::rmc::{spec_rmc, RMC};
use crate::scan::{
    find_first, find_last, first_pos, last_pos, parse_hex_u8_bytes, spec_parse_hex_u8, spec_xor,
    xor_fold, COMMA, STAR,
};
use vstd::slice::slice_subrange;

verus! {

/// The closed registry of recognized sentence codes.
#[derive(Copy, Clone, Debug, PartialEq, Eq, Structural)]
pub enum SentenceFormatter {
    GGA,
    GNS,
    GSA,
    RMC,
}

/// The three-byte code looked up in the registry; codes match by exact,
/// case-sensitive byte comparison and anything else is unrecognized.
pub open spec fn spec_formatter(code: Seq<u8>) -> Option<SentenceFormatter> {
    if code == seq![71u8, 71u8, 65u8] {
        Some(SentenceFormatter::GGA)
    } else if code == seq![71u8, 78u8, 83u8] {
        Some(SentenceFormatter::GNS)
    } else if code == seq![71u8, 83u8, 65u8] {
        Some(SentenceFormatter::GSA)
    } else if code == seq![82u8, 77u8, 67u8] {
        Some(SentenceFormatter::RMC)
    } else {
        None
    }
}

/// The enable-mask bit of each formatter, one distinct bit per variant.
pub open spec fn spec_mask(f: SentenceFormatter) -> u32 {
    match f {
        SentenceFormatter::GGA => 1,
        SentenceFormatter::GNS => 2,
        SentenceFormatter::GSA => 4,
        SentenceFormatter::RMC => 8,
    }
}

/// Whether the mask `enabled` has the bit of formatter `f` set.
pub open spec fn spec_enabled(enabled: u32, f: SentenceFormatter) -> bool {
    enabled & spec_mask(f) != 0
}

impl SentenceFormatter {
    /// Looks a three-byte sentence code up in the registry.
    pub fn try_from(bytes: &[u8]) -> (r: Option<SentenceFormatter>)
        ensures
            r == spec_formatter(bytes@),
    {
        if bytes.len() != 3 {
            proof {
                lemma_formatter_len(bytes@);
            }
            return None;
        }
        let (b0, b1, b2) = (bytes[0], bytes[1], bytes[2]);
        proof {
            assert(bytes@ =~= seq![b0, b1, b2]);
            lemma_three_eq(bytes@, b0, b1, b2);
        }
        if b0 == 71 && b1 == 71 && b2 == 65 {
            Some(SentenceFormatter::GGA)
        } else if b0 == 71 && b1 == 78 && b2 == 83 {
            Some(SentenceFormatter::GNS)
        } else if b0 == 71 && b1 == 83 && b2 == 65 {
            Some(SentenceFormatter::GSA)
        } else if b0 == 82 && b1 == 77 && b2 == 67 {
            Some(SentenceFormatter::RMC)
        } else {
            None
        }
    }

    /// The enable-mask bit of this formatter.
    pub fn mask(self) -> (r: u32)
        ensures
            r == spec_mask(self),
    {
        match self {
            SentenceFormatter::GGA => 1,
            SentenceFormatter::GNS => 2,
            SentenceFormatter::GSA => 4,
            SentenceFormatter::RMC => 8,
        }
    }
}

/// A code of any length other than three matches no registry entry.
proof fn lemma_formatter_len(code: Seq<u8>)
    requires
        code.len() != 3,
    ensures
        spec_formatter(code) is None,
{
    assert(seq![71u8, 71u8, 65u8].len() == 3);
    assert(seq![71u8, 78u8, 83u8].len() == 3);
    assert(seq![71u8, 83u8, 65u8].len() == 3);
    assert(seq![82u8, 77u8, 67u8].len() == 3);
}

/// Equality of a three-byte sequence with each registry code reduces to
/// byte comparisons.
proof fn lemma_three_eq(code: Seq<u8>, b0: u8, b1: u8, b2: u8)
    requires
        code =~= seq![b0, b1, b2],
    ensures
        (code == seq![71u8, 71u8, 65u8]) == (b0 == 71 && b1 == 71 && b2 == 65),
        (code == seq![71u8, 78u8, 83u8]) == (b0 == 71 && b1 == 78 && b2 == 83),
        (code == seq![71u8, 83u8, 65u8]) == (b0 == 71 && b1 == 83 && b2 == 65),
        (code == seq![82u8, 77u8, 67u8]) == (b0 == 82 && b1 == 77 && b2 == 67),
{
    if b0 == 71 && b1 == 71 && b2 == 65 {
        assert(code =~= seq![71u8, 71u8, 65u8]);
    }
    if b0 == 71 && b1 == 78 && b2 == 83 {
        assert(code =~= seq![71u8, 78u8, 83u8]);
    }
    if b0 == 71 && b1 == 83 && b2 == 65 {
        assert(code =~= seq![71u8, 83u8, 65u8]);
    }
    if b0 == 82 && b1 == 77 && b2 == 67 {
        assert(code =~= seq![82u8, 77u8, 67u8]);
    }
}

/// One decoded sentence, tagged by its type.
#[derive(Copy, Clone)]
pub enum Message {
    GNS(GNS),
    GGA(GGA),
    GSA(GSA),
    RMC(RMC),
}

/// The checksum field of a line interior: the bytes after the last `*`, or
/// nothing when no `*` is present (the checksum then reads as zero).
pub open spec fn spec_checksum_of(interior: Seq<u8>) -> u8 {
    match last_pos(interior, STAR) {
        Some(i) => match spec_parse_hex_u8(interior.skip(i + 1)) {
            Some(v) => v,
            None => 0,
        },
        None => 0,
    }
}

/// The checksummed payload of a line interior: the bytes before the last
/// `*`, or the whole interior when no `*` is present.
pub open spec fn spec_payload_of(interior: Seq<u8>) -> Seq<u8> {
    match last_pos(interior, STAR) {
        Some(i) => interior.take(i),
        None => interior,
    }
}

/// A line interior (start marker and terminator already stripped) decoded
/// to a message.  The XOR fold of the payload must equal the checksum
/// field; the payload splits at its first comma into an address and the
/// field payload; the address's third and later bytes must name a
/// recognized sentence code.  Any failure yields no message.
#[verifier::opaque]
pub open spec fn spec_message(interior: Seq<u8>) -> Option<Message> {
    let payload = spec_payload_of(interior);
    if spec_xor(payload) != spec_checksum_of(interior) {
        None
    } else {
        match first_pos(payload, COMMA) {
            None => None,
            Some(i) => {
                let address = payload.take(i);
                let value = payload.skip(i + 1);
                if address.len() < 2 {
                    None
                } else {
                    match spec_formatter(address.skip(2)) {
                        Some(SentenceFormatter::GGA) => Some(Message::GGA(spec_gga(value))),
                        Some(SentenceFormatter::GNS) => Some(Message::GNS(spec_gns(value))),
                        Some(SentenceFormatter::GSA) => Some(Message::GSA(spec_gsa(value))),
                        Some(SentenceFormatter::RMC) => Some(Message::RMC(spec_rmc(value))),
                        None => None,
                    }
                }
            },
        }
    }
}

impl Message {
    /// Validates a line interior and dispatches it to the matching record
    /// decoder.
    pub fn try_from(line: &[u8]) -> (r: Option<Message>)
        ensures
            r == spec_message(line@),
    {
        proof {
            reveal(spec_message);
        }
        let (payload, checksum): (&[u8], u8) = match find_last(line, STAR) {
            Some(i) => {
                proof {
                    crate::scan::lemma_last_pos_props(line@, STAR);
                    assert(last_pos(line@, STAR) == Some(i as int));
                    assert((i as int) < line@.len());
                }
                let n = line.len();
                let cs_field = slice_subrange(line, i + 1, n);
                let cs = match parse_hex_u8_bytes(cs_field) {
                    Some(v) => v,
                    None => 0,
                };
                (slice_subrange(line, 0, i), cs)
            },
            None => (line, 0),
        };
        if xor_fold(payload) != checksum {
            return None;
        }
        match find_first(payload, COMMA) {
            None => None,
            Some(i) => {
                proof {
                    crate::scan::lemma_first_pos_props(payload@, COMMA);
                    assert(first_pos(payload@, COMMA) == Some(i as int));
                    assert((i as int) < payload@.len());
                }
                let address = slice_subrange(payload, 0, i);
                let np = payload.len();
                let value = slice_subrange(payload, i + 1, np);
                if address.len() < 2 {
                    return None;
                }
                let code = slice_subrange(address, 2, address.len());
                match SentenceFormatter::try_from(code) {
                    Some(SentenceFormatter::GGA) => Some(Message::GGA(GGA::from_bytes(value))),
                    Some(SentenceFormatter::GNS) => Some(Message::GNS(GNS::from_bytes(value))),
                    Some(SentenceFormatter::GSA) => Some(Message::GSA(GSA::from_bytes(value))),
                    Some(SentenceFormatter::RMC) => Some(Message::RMC(RMC::from_bytes(value))),
                    None => None,
                }
            },
        }
    }
}

/// A complete candidate line validated and decoded: a line shorter than
/// seven bytes is dropped, the three-byte code at the fixed offset behind
/// the start marker and talker id must be recognized and its enable bit
/// set, and the interior (start marker and terminator stripped) must pass
/// the checksum.
pub open spec fn spec_parse_candidate(cand: Seq<u8>, enabled: u32) -> Option<Message> {
    if cand.len() < 7 {
        None
    } else {
        match spec_formatter(cand.subrange(3, 6)) {
            None => None,
            Some(f) => if spec_enabled(enabled, f) {
                spec_message(cand.subrange(1, cand.len() - 1))
            } else {
                None
            },
        }
    }
}

/// Validates one complete candidate line against the enable mask and
/// decodes it.
pub(crate) fn parse_candidate(line: &[u8], enabled: u32) -> (r: Option<Message>)
    ensures
        r == spec_parse_candidate(line@, enabled),
{
    let n = line.len();
    if n < 7 {
        return None;
    }
    let code = slice_subrange(line, 3, 6);
    match SentenceFormatter::try_from(code) {
        None => None,
        Some(f) => if enabled & f.mask() != 0 {
            Message::try_from(slice_subrange(line, 1, n - 1))
        } else {
            None
        },
    }
}

} // verus!
