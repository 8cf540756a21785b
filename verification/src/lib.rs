//! Streaming parser for NMEA-0183 navigation sentences (GGA, GNS, GSA, RMC).
//!
//! Raw bytes arrive in chunks that may split, merge or truncate sentence
//! lines at any byte boundary.  The [`Parser`] reassembles complete lines in a
//! fixed-capacity buffer, validates the trailing XOR checksum, filters by an
//! enabled-sentence bitmask and decodes each accepted line into a [`Message`].

use vstd::prelude::*;

pub use crate::message::{Message, SentenceFormatter};

pub mod message;
pub mod messages;
pub mod scan;
pub mod stream;
pub mod text;
pub mod types;

use crate::message::{parse_candidate, spec_enabled, spec_mask, spec_parse_candidate};
use crate::scan::{split_bytes, split_on, CR, DOLLAR, LF};

verus! {

/// Largest sentence line (without the terminating line feed) that the
/// reassembly buffer accepts.
pub const MAX_MESSAGE_SIZE: usize = 79;

/// The abstract state of a [`Parser`]: the bytes of the partial line it has
/// reassembled so far, and the enable mask.
pub struct ParserView {
    pub pending: Seq<u8>,
    pub enabled: u32,
}

/// A candidate line that is already a whole sentence: it starts with the
/// start marker and ends with the terminator, so it is decoded directly and
/// the reassembly state is left untouched.
pub open spec fn spec_is_complete(cand: Seq<u8>) -> bool {
    cand.len() > 0 && cand[0] == DOLLAR && cand.last() == CR
}

/// One candidate line applied to the parser state: a whole sentence is
/// decoded in place; any other candidate is appended to the pending
/// fragment — discarding the fragment when it would overflow the fixed
/// buffer — and the combined bytes are decoded once they end with the
/// terminator.
pub open spec fn spec_step(st: ParserView, cand: Seq<u8>) -> (ParserView, Option<Message>) {
    if spec_is_complete(cand) {
        (st, spec_parse_candidate(cand, st.enabled))
    } else if st.pending.len() + cand.len() > MAX_MESSAGE_SIZE {
        (ParserView { pending: Seq::empty(), enabled: st.enabled }, None)
    } else {
        let nb = st.pending + cand;
        if nb.len() > 0 && nb.last() == CR {
            (
                ParserView { pending: Seq::empty(), enabled: st.enabled },
                spec_parse_candidate(nb, st.enabled),
            )
        } else {
            (ParserView { pending: nb, enabled: st.enabled }, None)
        }
    }
}

/// The state after stepping through every candidate in order.
pub open spec fn spec_run_state(st: ParserView, cands: Seq<Seq<u8>>) -> ParserView
    decreases cands.len(),
{
    if cands.len() == 0 {
        st
    } else {
        spec_run_state(spec_step(st, cands[0]).0, cands.drop_first())
    }
}

/// The messages produced by stepping through every candidate in order.
pub open spec fn spec_run_outputs(st: ParserView, cands: Seq<Seq<u8>>) -> Seq<Message>
    decreases cands.len(),
{
    if cands.len() == 0 {
        Seq::empty()
    } else {
        let out = spec_step(st, cands[0]).1;
        (match out {
            Some(m) => seq![m],
            None => Seq::empty(),
        }) + spec_run_outputs(spec_step(st, cands[0]).0, cands.drop_first())
    }
}

/// The state after feeding one chunk: the chunk is split on the line feed
/// and each piece is one candidate line.
pub open spec fn spec_feed_state(st: ParserView, bytes: Seq<u8>) -> ParserView {
    spec_run_state(st, split_on(bytes, LF))
}

/// The messages produced by feeding one chunk.
pub open spec fn spec_feed_outputs(st: ParserView, bytes: Seq<u8>) -> Seq<Message> {
    spec_run_outputs(st, split_on(bytes, LF))
}

/// Stepping through candidates with one more appended runs the first part
/// and then steps once from its final state.
#[verifier::rlimit(50)]
pub proof fn lemma_run_snoc(st: ParserView, cands: Seq<Seq<u8>>, c: Seq<u8>)
    ensures
        spec_run_state(st, cands.push(c)) == spec_step(spec_run_state(st, cands), c).0,
        spec_run_outputs(st, cands.push(c)) == spec_run_outputs(st, cands) + (match spec_step(
            spec_run_state(st, cands),
            c,
        ).1 {
            Some(m) => seq![m],
            None => Seq::<Message>::empty(),
        }),
    decreases cands.len(),
{
    if cands.len() == 0 {
        reveal_with_fuel(spec_run_state, 3);
        reveal_with_fuel(spec_run_outputs, 3);
        assert(cands.push(c)[0] == c);
        assert(cands.push(c).drop_first() =~= Seq::<Seq<u8>>::empty());
        assert(spec_run_outputs(st, cands.push(c)) =~= spec_run_outputs(st, cands) + (
        match spec_step(spec_run_state(st, cands), c).1 {
            Some(m) => seq![m],
            None => Seq::<Message>::empty(),
        }));
    } else {
        let st1 = spec_step(st, cands[0]).0;
        assert(cands.push(c)[0] == cands[0]);
        assert(cands.push(c).drop_first() =~= cands.drop_first().push(c));
        lemma_run_snoc(st1, cands.drop_first(), c);
        assert(spec_run_outputs(st, cands.push(c)) =~= spec_run_outputs(st, cands) + (
        match spec_step(spec_run_state(st, cands), c).1 {
            Some(m) => seq![m],
            None => Seq::<Message>::empty(),
        }));
    }
}

/// Stepping through a concatenation of candidate lists runs one after the
/// other, concatenating their outputs.
pub proof fn lemma_run_concat(st: ParserView, c1: Seq<Seq<u8>>, c2: Seq<Seq<u8>>)
    ensures
        spec_run_state(st, c1 + c2) == spec_run_state(spec_run_state(st, c1), c2),
        spec_run_outputs(st, c1 + c2) == spec_run_outputs(st, c1) + spec_run_outputs(
            spec_run_state(st, c1),
            c2,
        ),
    decreases c1.len(),
{
    if c1.len() == 0 {
        assert(c1 + c2 =~= c2);
        assert(spec_run_outputs(st, c1) + spec_run_outputs(st, c2) =~= spec_run_outputs(st, c2));
    } else {
        let st1 = spec_step(st, c1[0]).0;
        assert((c1 + c2)[0] == c1[0]);
        assert((c1 + c2).drop_first() =~= c1.drop_first() + c2);
        lemma_run_concat(st1, c1.drop_first(), c2);
        assert(spec_run_outputs(st, c1 + c2) =~= spec_run_outputs(st, c1) + spec_run_outputs(
            spec_run_state(st, c1),
            c2,
        ));
    }
}

/// The streaming reassembly parser: a fixed 79-byte line buffer, the cursor
/// marking how much of a partial line it holds, and the enabled-sentence
/// bitmask.
pub struct Parser {
    buffer: Vec<u8>,
    index: usize,
    enabled: u32,
}

impl View for Parser {
    type V = ParserView;

    closed spec fn view(&self) -> ParserView {
        ParserView {
            pending: self.buffer@.subrange(0, self.index as int),
            enabled: self.enabled,
        }
    }
}

/// Builds the zeroed fixed-size line buffer.
fn make_buffer() -> (v: Vec<u8>)
    ensures
        v@.len() == MAX_MESSAGE_SIZE,
{
    let mut v: Vec<u8> = Vec::new();
    let mut i: usize = 0;
    while i < MAX_MESSAGE_SIZE
        invariant
            v@.len() == i,
            i <= MAX_MESSAGE_SIZE,
        decreases MAX_MESSAGE_SIZE - i,
    {
        v.push(0);
        i = i + 1;
    }
    v
}

impl Parser {
    /// The parser's internal invariant: the buffer keeps its fixed size,
    /// the cursor stays inside it, and a pending fragment never ends with
    /// the terminator (a fragment that did would have been consumed).
    pub closed spec fn wf(self) -> bool {
        &&& self.buffer@.len() == MAX_MESSAGE_SIZE
        &&& self.index <= MAX_MESSAGE_SIZE
        &&& (self.index > 0 ==> self.buffer@[self.index - 1] != CR)
    }

    /// What the invariant guarantees about the abstract state.
    pub proof fn lemma_wf_view(self)
        requires
            self.wf(),
        ensures
            self@.pending.len() <= MAX_MESSAGE_SIZE,
            self@.pending.len() > 0 ==> self@.pending.last() != CR,
    {
    }

    /// A parser with every sentence type enabled and nothing pending.
    pub fn new() -> (r: Parser)
        ensures
            r.wf(),
            r@.pending == Seq::<u8>::empty(),
            r@.enabled == 0xFFFF_FFFFu32,
            forall|f: SentenceFormatter| spec_enabled(r@.enabled, f),
    {
        let p = Parser { buffer: make_buffer(), index: 0, enabled: 0xFFFF_FFFF };
        proof {
            assert(p@.pending =~= Seq::<u8>::empty());
            assert(0xFFFF_FFFFu32 & 1u32 != 0 && 0xFFFF_FFFFu32 & 2u32 != 0 && 0xFFFF_FFFFu32
                & 4u32 != 0 && 0xFFFF_FFFFu32 & 8u32 != 0) by (bit_vector);
            assert forall|f: SentenceFormatter| spec_enabled(p@.enabled, f) by {
                match f {
                    SentenceFormatter::GGA => {},
                    SentenceFormatter::GNS => {},
                    SentenceFormatter::GSA => {},
                    SentenceFormatter::RMC => {},
                }
            }
        }
        p
    }

    /// A parser with exactly the given sentence types enabled (listing one
    /// twice changes nothing) and nothing pending.
    pub fn with_enables(enableds: &[SentenceFormatter]) -> (r: Parser)
        ensures
            r.wf(),
            r@.pending == Seq::<u8>::empty(),
            forall|f: SentenceFormatter| spec_enabled(r@.enabled, f) <==> enableds@.contains(f),
    {
        let mut enabled: u32 = 0;
        let mut i: usize = 0;
        proof {
            assert(forall|c: u32| 0u32 & c == 0) by (bit_vector);
        }
        while i < enableds.len()
            invariant
                i <= enableds@.len(),
                forall|f: SentenceFormatter| #![trigger spec_mask(f)]
                    (enabled & spec_mask(f) != 0) <==> (exists|j: int|
                        0 <= j < i && enableds@[j] == f),
            decreases enableds@.len() - i,
        {
            let g = enableds[i];
            let m = g.mask();
            let ghost before: u32 = enabled;
            enabled = enabled | m;
            proof {
                assert(forall|a: u32, b: u32, c: u32|
                    (((a | b) & c) != 0) == ((a & c != 0) || (b & c != 0))) by (bit_vector);
                assert forall|f: SentenceFormatter| #![trigger spec_mask(f)]
                    (enabled & spec_mask(f) != 0) <==> (exists|j: int|
                        0 <= j < i + 1 && enableds@[j] == f) by {
                    lemma_mask_overlap(g, f);
                    if enabled & spec_mask(f) != 0 {
                        if before & spec_mask(f) != 0 {
                            let j = choose|j: int| 0 <= j < i && enableds@[j] == f;
                            assert(0 <= j < i + 1 && enableds@[j] == f);
                        } else {
                            assert(0 <= i < i + 1 && enableds@[i as int] == f);
                        }
                    }
                    if exists|j: int| 0 <= j < i + 1 && enableds@[j] == f {
                        let j = choose|j: int| 0 <= j < i + 1 && enableds@[j] == f;
                        if j < i {
                            assert(exists|t: int| 0 <= t < i && enableds@[t] == f);
                        } else {
                            assert(enableds@[i as int] == f);
                        }
                    }
                }
            }
            i = i + 1;
        }
        proof {
            assert forall|f: SentenceFormatter| #![trigger spec_mask(f)]
                (enabled & spec_mask(f) != 0) <==> enableds@.contains(f) by {
                if enableds@.contains(f) {
                    let j = choose|j: int| 0 <= j < enableds@.len() && enableds@[j] == f;
                    assert(0 <= j < i && enableds@[j] == f);
                }
                if enabled & spec_mask(f) != 0 {
                    let j = choose|j: int| 0 <= j < i && enableds@[j] == f;
                    assert(enableds@.contains(f));
                }
            }
        }
        let p = Parser { buffer: make_buffer(), index: 0, enabled };
        proof {
            assert(p@.pending =~= Seq::<u8>::empty());
        }
        p
    }

    /// Applies one candidate line to the parser state, as [`spec_step`]
    /// describes.
    fn parse_line(&mut self, line: &[u8]) -> (r: Option<Message>)
        requires
            old(self).wf(),
        ensures
            final(self).wf(),
            final(self)@ == spec_step(old(self)@, line@).0,
            r == spec_step(old(self)@, line@).1,
    {
        let len = line.len();
        let complete = len > 0 && line[0] == DOLLAR && line[len - 1] == CR;
        if complete {
            return parse_candidate(line, self.enabled);
        }
        if len > MAX_MESSAGE_SIZE - self.index {
            self.index = 0;
            proof {
                assert(self@.pending =~= Seq::<u8>::empty());
            }
            return None;
        }
        let ghost buf0 = self.buffer@;
        let ghost idx0 = self.index as int;
        let mut j: usize = 0;
        while j < len
            invariant
                j <= len,
                len == line@.len(),
                idx0 + len <= MAX_MESSAGE_SIZE,
                0 <= idx0,
                self.index as int == idx0,
                self.enabled == old(self).enabled,
                buf0.len() == MAX_MESSAGE_SIZE,
                self.buffer@.len() == MAX_MESSAGE_SIZE,
                forall|t: int| 0 <= t < j ==> self.buffer@[idx0 + t] == line@[t],
                forall|t: int|
                    0 <= t < MAX_MESSAGE_SIZE && !(idx0 <= t < idx0 + j) ==> self.buffer@[t]
                        == buf0[t],
            decreases len - j,
        {
            let slot = self.index + j;
            let b = line[j];
            self.buffer[slot] = b;
            j = j + 1;
        }
        let new_index = self.index + len;
        self.index = new_index;
        let ghost nb = buf0.subrange(0, idx0) + line@;
        proof {
            assert(self@.pending =~= nb);
        }
        if new_index == 0 || self.buffer[new_index - 1] != CR {
            proof {
                if nb.len() > 0 {
                    assert(nb.last() == self.buffer@[new_index - 1]);
                }
            }
            return None;
        }
        self.index = 0;
        let cand = vstd::slice::slice_subrange(self.buffer.as_slice(), 0, new_index);
        proof {
            assert(cand@ =~= nb);
            assert(self@.pending =~= Seq::<u8>::empty());
        }
        parse_candidate(cand, self.enabled)
    }

    /// Feeds one chunk of the byte stream and returns the messages of every
    /// sentence line completed inside it, in arrival order, as
    /// [`spec_feed_outputs`] and [`spec_feed_state`] describe.
    pub fn parse_bytes(&mut self, bytes: &[u8]) -> (msgs: Vec<Message>)
        requires
            old(self).wf(),
        ensures
            final(self).wf(),
            final(self)@ == spec_feed_state(old(self)@, bytes@),
            msgs@ == spec_feed_outputs(old(self)@, bytes@),
    {
        let pieces = split_bytes(bytes, LF);
        let ghost cands = split_on(bytes@, LF);
        let ghost st0 = old(self)@;
        let mut msgs: Vec<Message> = Vec::new();
        let mut k: usize = 0;
        proof {
            assert(cands.take(0) =~= Seq::<Seq<u8>>::empty());
        }
        while k < pieces.len()
            invariant
                k <= pieces@.len(),
                pieces@.len() == cands.len(),
                forall|i: int| 0 <= i < cands.len() ==> pieces@[i]@ == cands[i],
                self.wf(),
                self@ == spec_run_state(st0, cands.take(k as int)),
                msgs@ == spec_run_outputs(st0, cands.take(k as int)),
            decreases pieces@.len() - k,
        {
            let r = self.parse_line(pieces[k].as_slice());
            if let Some(m) = r {
                msgs.push(m);
            }
            proof {
                lemma_run_snoc(st0, cands.take(k as int), cands[k as int]);
                assert(cands.take(k + 1) =~= cands.take(k as int).push(cands[k as int]));
            }
            k = k + 1;
        }
        proof {
            assert(cands.take(cands.len() as int) =~= cands);
        }
        msgs
    }
}

/// Two formatters' mask bits overlap exactly when the formatters are equal.
pub proof fn lemma_mask_overlap(g: SentenceFormatter, f: SentenceFormatter)
    ensures
        (spec_mask(g) & spec_mask(f) != 0) <==> g == f,
{
    assert(1u32 & 1u32 != 0 && 2u32 & 2u32 != 0 && 4u32 & 4u32 != 0 && 8u32 & 8u32 != 0 && 1u32
        & 2u32 == 0 && 1u32 & 4u32 == 0 && 1u32 & 8u32 == 0 && 2u32 & 4u32 == 0 && 2u32 & 8u32
        == 0 && 4u32 & 8u32 == 0 && 2u32 & 1u32 == 0 && 4u32 & 1u32 == 0 && 8u32 & 1u32 == 0
        && 4u32 & 2u32 == 0 && 8u32 & 2u32 == 0 && 8u32 & 4u32 == 0) by (bit_vector);
}

} // verus!
