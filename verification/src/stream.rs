//! Stream-level guarantees of the reassembly state machine, stated over the
//! abstract model in the crate root: what a well-framed sentence stream is,
//! which lines are accepted or dropped, and that chunk boundaries never
//! change what a stream decodes to.

use vstd::prelude::*;

use crate::message::{
    spec_checksum_of, spec_enabled, spec_formatter, spec_message, spec_parse_candidate,
    spec_payload_of, Message, SentenceFormatter,
};
use crate::messages::gga::spec_gga;
use crate::messages::gns::spec_gns;
use crate::messages::gsa::spec_gsa;
use crate::messages::rmc::spec_rmc;
use crate::scan::{
    first_pos, hex_digit_val, is_hex_digit, last_pos, lemma_first_pos_props, lemma_last_pos_props,
    lemma_split_on_concat, lemma_split_on_len, lemma_split_on_pieces_free, lemma_split_on_sep,
    spec_parse_hex_u8, spec_xor, split_on, strip_plus, COMMA, CR, DOLLAR, LF, STAR,
};
use crate::{
    lemma_run_concat, spec_feed_outputs, spec_feed_state, spec_is_complete, spec_run_outputs,
    spec_run_state, spec_step, ParserView, MAX_MESSAGE_SIZE,
};

verus! {

/// Feeding a chunk is a function of the parser state alone: two parsers in
/// the same state — in particular two freshly constructed ones with the
/// same enable mask — decode the same chunk to identical message sequences
/// and identical final states.
pub proof fn lemma_deterministic(a: ParserView, b: ParserView, bytes: Seq<u8>)
    requires
        a == b,
    ensures
        spec_feed_outputs(a, bytes) == spec_feed_outputs(b, bytes),
        spec_feed_state(a, bytes) == spec_feed_state(b, bytes),
{
}

/// A complete candidate line whose checksum field does not equal the XOR
/// fold of its payload yields no message, and the reassembly state is left
/// exactly as it was: the bad line cannot contaminate the next one.
pub proof fn lemma_bad_checksum_dropped(st: ParserView, cand: Seq<u8>)
    requires
        spec_is_complete(cand),
        spec_xor(spec_payload_of(cand.subrange(1, cand.len() - 1))) != spec_checksum_of(
            cand.subrange(1, cand.len() - 1),
        ),
    ensures
        spec_step(st, cand) == (st, Option::<Message>::None),
{
    reveal(spec_message);
}

/// A complete candidate line whose recognized sentence code is not in the
/// enable mask yields no message, and the reassembly state is left exactly
/// as it was.
pub proof fn lemma_disabled_dropped(st: ParserView, cand: Seq<u8>, f: SentenceFormatter)
    requires
        spec_is_complete(cand),
        cand.len() >= 7,
        spec_formatter(cand.subrange(3, 6)) == Some(f),
        !spec_enabled(st.enabled, f),
    ensures
        spec_step(st, cand) == (st, Option::<Message>::None),
{
}

/// A fragment that would overflow the fixed buffer is discarded whole: no
/// message comes out, the cursor resets, and from then on the parser
/// behaves exactly like one with nothing pending — the next well-formed
/// sentence decodes as usual.
pub proof fn lemma_overflow_recovery(st: ParserView, frag: Seq<u8>)
    requires
        !spec_is_complete(frag),
        st.pending.len() + frag.len() > MAX_MESSAGE_SIZE,
    ensures
        spec_step(st, frag) == (
            ParserView { pending: Seq::empty(), enabled: st.enabled },
            Option::<Message>::None,
        ),
        forall|c: Seq<u8>|
            spec_is_complete(c) ==> #[trigger] spec_step(spec_step(st, frag).0, c).1
                == spec_parse_candidate(c, st.enabled),
{
}

/// The three-byte code of each formatter.
pub open spec fn code_bytes(f: SentenceFormatter) -> Seq<u8> {
    match f {
        SentenceFormatter::GGA => seq![71u8, 71u8, 65u8],
        SentenceFormatter::GNS => seq![71u8, 78u8, 83u8],
        SentenceFormatter::GSA => seq![71u8, 83u8, 65u8],
        SentenceFormatter::RMC => seq![82u8, 77u8, 67u8],
    }
}

/// The record the dispatcher builds for a recognized code and field payload.
pub open spec fn dispatch(f: SentenceFormatter, body: Seq<u8>) -> Message {
    match f {
        SentenceFormatter::GGA => Message::GGA(spec_gga(body)),
        SentenceFormatter::GNS => Message::GNS(spec_gns(body)),
        SentenceFormatter::GSA => Message::GSA(spec_gsa(body)),
        SentenceFormatter::RMC => Message::RMC(spec_rmc(body)),
    }
}

/// The byte of one uppercase hexadecimal digit.
pub open spec fn hex_digit_byte(d: int) -> u8 {
    if d < 10 {
        (48 + d) as u8
    } else {
        (55 + d) as u8
    }
}

/// A checksum value rendered as its two uppercase hexadecimal digits.
pub open spec fn checksum_text(v: u8) -> Seq<u8> {
    seq![hex_digit_byte(v as int / 16), hex_digit_byte(v as int % 16)]
}

/// A whole sentence line assembled from its parts: start marker, talker id,
/// sentence code, comma, field payload, checksum delimiter, the correct
/// checksum, and the terminator.
pub open spec fn frame_line(talker: Seq<u8>, f: SentenceFormatter, body: Seq<u8>) -> Seq<u8> {
    let payload = talker + code_bytes(f) + seq![COMMA] + body;
    seq![DOLLAR] + payload + seq![STAR] + checksum_text(spec_xor(payload)) + seq![CR]
}

/// Rendering a checksum and parsing it back returns the same value.
proof fn lemma_checksum_text_parses(v: u8)
    ensures
        spec_parse_hex_u8(checksum_text(v)) == Some(v),
{
    let t = checksum_text(v);
    assert(t.len() == 2);
    assert(t[0] != 43 && is_hex_digit(t[0]) && hex_digit_val(t[0]) == v as int / 16);
    assert(t[1] != 43 && is_hex_digit(t[1]) && hex_digit_val(t[1]) == v as int % 16);
    assert(strip_plus(t) == t);
    assert(t.drop_last() =~= seq![t[0]]);
    assert(seq![t[0]].drop_last() =~= Seq::<u8>::empty());
    assert(crate::scan::hex_val(Seq::<u8>::empty()) == 0);
    assert(crate::scan::hex_val(seq![t[0]]) == hex_digit_val(t[0]));
    assert(crate::scan::hex_val(t) == hex_digit_val(t[0]) * 16 + hex_digit_val(t[1]));
    assert((v as int / 16) * 16 + (v as int % 16) == v as int) by {
        vstd::arithmetic::div_mod::lemma_fundamental_div_mod(v as int, 16);
    }
}

/// One sentence line as it stands in the byte stream before its line feed:
/// the start marker, an interior free of further markers and terminators,
/// and the terminator, all within the fixed buffer size.
pub open spec fn is_sentence_line(c: Seq<u8>) -> bool {
    &&& c.len() >= 2
    &&& c.len() <= MAX_MESSAGE_SIZE
    &&& c[0] == DOLLAR
    &&& c.last() == CR
    &&& forall|j: int| 1 <= j < c.len() - 1 ==> c[j] != CR && c[j] != DOLLAR
}

/// A well-framed continuation of the stream: the pending fragment `p`
/// followed by the upcoming bytes `s` reads as whole sentence lines, each
/// closed by a line feed.  When nothing is pending the first candidate may
/// be empty, as it is right after a cut between a terminator and its line
/// feed.
pub open spec fn wf_stream(p: Seq<u8>, s: Seq<u8>) -> bool {
    let cs = split_on(p + s, LF);
    &&& cs.last() == Seq::<u8>::empty()
    &&& forall|i: int|
        0 <= i < cs.len() - 1 ==> is_sentence_line(cs[i]) || (i == 0 && cs[0]
            == Seq::<u8>::empty() && p.len() == 0)
}

/// Running a single candidate is one step.
proof fn lemma_run_one(st: ParserView, c: Seq<u8>)
    ensures
        spec_run_state(st, seq![c]) == spec_step(st, c).0,
        spec_run_outputs(st, seq![c]) == out_seq(spec_step(st, c).1),
{
    reveal_with_fuel(spec_run_state, 2);
    reveal_with_fuel(spec_run_outputs, 2);
    assert(seq![c][0] == c);
    assert(seq![c].drop_first() =~= Seq::<Seq<u8>>::empty());
    assert(spec_run_outputs(st, seq![c]) =~= out_seq(spec_step(st, c).1));
}

/// A step's output as a message sequence of length zero or one.
pub open spec fn out_seq(o: Option<Message>) -> Seq<Message> {
    match o {
        Some(m) => seq![m],
        None => Seq::<Message>::empty(),
    }
}

/// The heart of fragmentation invariance: one sentence line cut in two at
/// an arbitrary point is consumed by two steps exactly as the uncut
/// candidate is by one — the line reassembles, decodes once, and leaves
/// nothing pending.
proof fn lemma_merge_step(en: u32, p: Seq<u8>, x: Seq<u8>, cy0: Seq<u8>)
    requires
        forall|j: int| 0 <= j < p.len() ==> p[j] != CR,
        is_sentence_line(p + x + cy0) || ((p + x + cy0).len() == 0 && p.len() == 0),
    ensures
        ({
            let st = ParserView { pending: p, enabled: en };
            let mid = spec_step(st, x).0;
            let done = ParserView { pending: Seq::empty(), enabled: en };
            &&& spec_step(mid, cy0).0 == done
            &&& spec_step(st, x + cy0).0 == done
            &&& out_seq(spec_step(st, x).1) + out_seq(spec_step(mid, cy0).1) == out_seq(
                spec_step(st, x + cy0).1,
            )
            &&& mid.enabled == en
            &&& (mid.pending == Seq::<u8>::empty() || mid.pending == p + x)
            &&& forall|j: int| 0 <= j < mid.pending.len() ==> mid.pending[j] != CR
            &&& (mid.pending == Seq::<u8>::empty() ==> cy0.len() == 0 || is_sentence_line(cy0))
        }),
{
    let st = ParserView { pending: p, enabled: en };
    let mid = spec_step(st, x).0;
    let done = ParserView { pending: Seq::empty(), enabled: en };
    let c0 = p + x + cy0;
    let m = x + cy0;
    let a = p.len() as int;
    let b = x.len() as int;
    let ll = c0.len() as int;
    assert(p + m =~= c0);
    if c0.len() == 0 {
        assert(p =~= Seq::<u8>::empty());
        assert(x =~= Seq::<u8>::empty());
        assert(cy0 =~= Seq::<u8>::empty());
        assert(st.pending + x =~= st.pending);
        assert(st == done);
        assert(spec_step(st, x) == (done, Option::<Message>::None));
        assert(mid.pending + cy0 =~= mid.pending);
        assert(spec_step(mid, cy0) == (done, Option::<Message>::None));
        assert(st.pending + m =~= st.pending);
        assert(spec_step(st, m) == (done, Option::<Message>::None));
        assert(out_seq(spec_step(st, x).1) + out_seq(spec_step(mid, cy0).1) =~= out_seq(
            spec_step(st, m).1,
        ));
        return ;
    }
    assert(is_sentence_line(c0));
    assert(a < ll) by {
        if a == ll {
            assert(p[ll - 1] == c0.last());
        }
    }
    let o = spec_parse_candidate(c0, en);
    if a == 0 {
        assert(p =~= Seq::<u8>::empty());
        assert(st == done);
        assert(m =~= c0);
        assert(spec_is_complete(m));
        assert(spec_step(st, m) == (done, o));
        if b > 0 && b == ll {
            assert(x =~= c0);
            assert(spec_is_complete(x));
            assert(spec_step(st, x) == (done, o));
            assert(cy0.len() == 0);
            assert(mid.pending + cy0 =~= mid.pending);
            assert(spec_step(mid, cy0) == (done, Option::<Message>::None));
            assert(out_seq(spec_step(st, x).1) + out_seq(spec_step(mid, cy0).1) =~= out_seq(o));
        } else {
            assert(b < ll);
            assert(!spec_is_complete(x)) by {
                if x.len() > 0 {
                    assert(x.last() == c0[b - 1]);
                }
            }
            assert(st.pending + x =~= x);
            assert(!(x.len() > 0 && x.last() == CR)) by {
                if x.len() > 0 {
                    assert(x.last() == c0[b - 1]);
                }
            }
            assert(spec_step(st, x) == (ParserView { pending: x, enabled: en }, Option::<
                Message,
            >::None));
            assert(mid.pending == x);
            assert(cy0.len() == ll - b > 0);
            assert(cy0[0] == c0[b]);
            if b == 0 {
                assert(cy0 =~= c0);
                assert(spec_is_complete(cy0));
                assert(mid.pending =~= Seq::<u8>::empty());
                assert(mid == done);
                assert(spec_step(mid, cy0) == (done, o));
                assert(out_seq(spec_step(st, x).1) + out_seq(spec_step(mid, cy0).1) =~= out_seq(
                    o,
                ));
                assert(mid.pending == Seq::<u8>::empty());
                assert(is_sentence_line(cy0));
            } else {
                assert(cy0[0] != DOLLAR);
                assert(!spec_is_complete(cy0));
                assert(mid.pending.len() + cy0.len() == ll <= MAX_MESSAGE_SIZE);
                assert(mid.pending + cy0 =~= c0);
                assert(c0.last() == CR);
                assert(spec_step(mid, cy0) == (done, o));
                assert(out_seq(spec_step(st, x).1) + out_seq(spec_step(mid, cy0).1) =~= out_seq(
                    o,
                ));
                assert forall|j: int| 0 <= j < b implies mid.pending[j] != CR by {
                    assert(mid.pending[j] == c0[j]);
                    if j == 0 {
                        assert(c0[0] == DOLLAR);
                    } else {
                        assert(1 <= j < ll - 1);
                    }
                }
            }
        }
    } else {
        assert(m.len() == ll - a);
        assert(m.len() > 0);
        assert(!spec_is_complete(m)) by {
            assert(m[0] == c0[a]);
        }
        assert(st.pending.len() + m.len() == ll <= MAX_MESSAGE_SIZE);
        assert(st.pending + m =~= c0);
        assert(c0.last() == CR);
        assert(spec_step(st, m) == (done, o));
        assert(!spec_is_complete(x)) by {
            if x.len() > 0 {
                assert(x[0] == c0[a]);
            }
        }
        assert(st.pending.len() + x.len() == a + b <= ll);
        if a + b == ll {
            assert(b > 0);
            assert(st.pending + x =~= c0);
            assert(spec_step(st, x) == (done, o));
            assert(cy0.len() == 0);
            assert(mid.pending + cy0 =~= mid.pending);
            assert(spec_step(mid, cy0) == (done, Option::<Message>::None));
            assert(out_seq(spec_step(st, x).1) + out_seq(spec_step(mid, cy0).1) =~= out_seq(o));
        } else {
            let nb = st.pending + x;
            assert(nb =~= c0.take(a + b));
            assert(!(nb.len() > 0 && nb.last() == CR)) by {
                assert(nb.last() == c0[a + b - 1]);
            }
            assert(spec_step(st, x) == (ParserView { pending: nb, enabled: en }, Option::<
                Message,
            >::None));
            assert(mid.pending == nb);
            assert(cy0.len() == ll - a - b > 0);
            assert(cy0[0] == c0[a + b] && c0[a + b] != DOLLAR);
            assert(!spec_is_complete(cy0));
            assert(mid.pending.len() + cy0.len() == ll <= MAX_MESSAGE_SIZE);
            assert(mid.pending + cy0 =~= c0);
            assert(spec_step(mid, cy0) == (done, o));
            assert(out_seq(spec_step(st, x).1) + out_seq(spec_step(mid, cy0).1) =~= out_seq(o));
            assert forall|j: int| 0 <= j < a + b implies mid.pending[j] != CR by {
                assert(mid.pending[j] == c0[j]);
                if j == 0 {
                    assert(c0[0] == DOLLAR);
                } else {
                    assert(1 <= j < ll - 1);
                }
            }
        }
    }
}

/// Chunk boundaries never change what a stream decodes to.  For a parser
/// whose pending fragment `p` and remaining input `x + y` form a
/// well-framed sentence stream, feeding `x` and then `y` yields the same
/// messages, in the same order, and the same final state as feeding
/// `x + y` in one call; and the state between the two calls is again a
/// well-framed continuation, so the split may be repeated at any further
/// boundary.
pub proof fn lemma_fragmentation_invariance(en: u32, p: Seq<u8>, x: Seq<u8>, y: Seq<u8>)
    requires
        forall|j: int| 0 <= j < p.len() ==> p[j] != CR && p[j] != LF,
        wf_stream(p, x + y),
    ensures
        ({
            let st = ParserView { pending: p, enabled: en };
            let mid = spec_feed_state(st, x);
            &&& spec_feed_outputs(st, x + y) == spec_feed_outputs(st, x) + spec_feed_outputs(
                mid,
                y,
            )
            &&& spec_feed_state(st, x + y) == spec_feed_state(mid, y)
            &&& mid.enabled == en
            &&& forall|j: int|
                0 <= j < mid.pending.len() ==> mid.pending[j] != CR && mid.pending[j] != LF
            &&& wf_stream(mid.pending, y)
        }),
    decreases x.len(),
{
    let st = ParserView { pending: p, enabled: en };
    let w = p + (x + y);
    let cw = split_on(w, LF);
    lemma_split_on_len(w, LF);
    lemma_split_on_pieces_free(w, LF);
    lemma_first_pos_props(x, LF);
    match first_pos(x, LF) {
        Some(k) => {
            let x0 = x.take(k);
            let x1 = x.skip(k + 1);
            let c0 = p + x0;
            assert(w =~= c0 + seq![LF] + (x1 + y));
            assert(forall|j: int| 0 <= j < c0.len() ==> c0[j] != LF);
            lemma_split_on_sep(c0, x1 + y, LF);
            assert(cw == seq![c0] + split_on(x1 + y, LF));
            lemma_split_on_len(x1 + y, LF);
            assert(x =~= x0 + seq![LF] + x1);
            lemma_split_on_sep(x0, x1, LF);
            assert(split_on(x, LF) == seq![x0] + split_on(x1, LF));
            assert(x + y =~= x0 + seq![LF] + (x1 + y));
            lemma_split_on_sep(x0, x1 + y, LF);
            assert(split_on(x + y, LF) == seq![x0] + split_on(x1 + y, LF));
            // the first candidate line is consumed whole on both sides
            assert(cw.len() >= 2);
            assert(cw[0] == c0);
            assert(is_sentence_line(c0) || (c0.len() == 0 && p.len() == 0));
            lemma_merge_step(en, p, x0, Seq::<u8>::empty());
            assert(x0 + Seq::<u8>::empty() =~= x0);
            let st1 = ParserView { pending: Seq::empty(), enabled: en };
            assert(spec_step(st, x0).0 == st1) by {
                let mid0 = spec_step(st, x0).0;
                assert(spec_step(mid0, Seq::<u8>::empty()).0 == st1);
                if mid0.pending == p + x0 {
                    if c0.len() > 0 {
                        assert(mid0.pending.len() + 0 <= MAX_MESSAGE_SIZE);
                        assert(mid0.pending + Seq::<u8>::empty() =~= c0);
                        assert(c0.last() == CR);
                        assert(mid0.pending.last() == CR);
                        assert(mid0.pending[mid0.pending.len() - 1] != CR);
                    } else {
                        assert(mid0.pending =~= Seq::<u8>::empty());
                    }
                }
            }
            lemma_run_concat(st, seq![x0], split_on(x1, LF));
            lemma_run_concat(st, seq![x0], split_on(x1 + y, LF));
            lemma_run_one(st, x0);
            // the tail after the first line feed is itself well framed
            assert(wf_stream(Seq::<u8>::empty(), x1 + y)) by {
                let ct = split_on(x1 + y, LF);
                assert(Seq::<u8>::empty() + (x1 + y) =~= x1 + y);
                assert(ct.last() == cw.last());
                assert(forall|i: int|
                    0 <= i < ct.len() - 1 ==> #[trigger] ct[i] == cw[i + 1] && is_sentence_line(
                        cw[i + 1],
                    ));
            }
            lemma_fragmentation_invariance(en, Seq::<u8>::empty(), x1, y);
            let mid = spec_feed_state(st, x);
            assert(Seq::<u8>::empty() + x1 =~= x1);
            assert(Seq::<u8>::empty() + (x1 + y) =~= x1 + y);
            assert(mid == spec_feed_state(st1, x1));
            assert(spec_feed_state(st, x + y) == spec_feed_state(st1, x1 + y));
            assert(spec_feed_state(st, x + y) == spec_feed_state(mid, y));
            assert(spec_feed_outputs(st, x + y) =~= spec_feed_outputs(st, x)
                + spec_feed_outputs(mid, y));
        },
        None => {
            // `x` holds no line feed: it is (part of) a single candidate
            crate::scan::lemma_split_on_free(x, LF);
            let cy = split_on(y, LF);
            lemma_split_on_len(y, LF);
            let cy0 = cy.first();
            let cyr = cy.drop_first();
            lemma_split_on_concat(x, y, LF);
            assert(split_on(x + y, LF) == seq![x + cy0] + cyr);
            assert(forall|j: int| 0 <= j < p.len() + x.len() ==> (p + x)[j] != LF);
            crate::scan::lemma_split_on_free(p + x, LF);
            lemma_split_on_concat(p + x, y, LF);
            let c0 = (p + x) + cy0;
            assert(cw =~= seq![c0] + cyr) by {
                assert(w =~= (p + x) + y);
            }
            assert(p + (x + cy0) =~= c0);
            if cy.len() == 1 {
                // no line feed anywhere: well-framedness forces emptiness
                assert(cw.len() == 1);
                assert(cw.last() == cw[0]);
                assert(c0 =~= Seq::<u8>::empty());
                assert(p.len() == 0 && x.len() == 0 && cy0.len() == 0);
                crate::scan::lemma_split_on_single(y, LF);
                assert(y =~= cy0);
                assert(st.pending + x =~= st.pending);
                assert(!spec_is_complete(x));
                assert(spec_step(st, x) == (st, Option::<Message>::None));
                lemma_run_one(st, x);
                let mid = spec_feed_state(st, x);
                assert(mid == st);
                assert(x + y =~= y);
                assert(spec_feed_outputs(st, x) =~= Seq::<Message>::empty());
                assert(spec_feed_outputs(st, x + y) =~= spec_feed_outputs(st, x)
                    + spec_feed_outputs(mid, y));
                assert(wf_stream(mid.pending, y)) by {
                    assert(mid.pending + y =~= w);
                }
            } else {
                assert(cw.len() == 1 + cyr.len());
                assert(cw.len() >= 2);
                assert(cw[0] == c0);
                assert(is_sentence_line(c0) || (c0.len() == 0 && p.len() == 0));
                lemma_merge_step(en, p, x, cy0);
                let mid = spec_step(st, x).0;
                let done = ParserView { pending: Seq::empty(), enabled: en };
                // assemble: one step on the merged candidate on the left,
                // one step on each half on the right
                lemma_run_concat(st, seq![x + cy0], cyr);
                lemma_run_one(st, x + cy0);
                lemma_run_one(st, x);
                lemma_run_concat(mid, seq![cy0], cyr);
                lemma_run_one(mid, cy0);
                assert(spec_feed_state(st, x) == mid);
                assert(spec_feed_state(st, x + y) == spec_run_state(done, cyr));
                assert(spec_feed_state(mid, y) == spec_run_state(done, cyr));
                assert(spec_feed_outputs(st, x + y) =~= spec_feed_outputs(st, x)
                    + spec_feed_outputs(mid, y));
                // the state between the calls continues the same stream
                assert(forall|j: int|
                    0 <= j < mid.pending.len() ==> mid.pending[j] != LF) by {
                    if mid.pending == p + x {
                    }
                }
                assert(wf_stream(mid.pending, y)) by {
                    if mid.pending.len() == 0 {
                        assert(mid.pending + y =~= y);
                        assert(split_on(y, LF) == seq![cy0] + cyr);
                        assert(cy.last() == cw.last());
                        assert(forall|i: int|
                            1 <= i < cy.len() - 1 ==> #[trigger] cy[i] == cw[i]
                                && is_sentence_line(cw[i]));
                        assert(cy0.len() == 0 || is_sentence_line(cy0));
                    } else {
                        assert(mid.pending == p + x);
                        assert(mid.pending + y =~= w);
                    }
                }
            }
        },
    }
}

/// Feeding one whole well-framed chunk consumes it completely: the parser
/// comes back to a clean state, so feeding the same chunk again — or any
/// other — from the same freshly constructed parser yields exactly the
/// sequence a first feed yields.
pub proof fn lemma_repeat_chunk(en: u32, chunk: Seq<u8>)
    requires
        wf_stream(Seq::<u8>::empty(), chunk),
    ensures
        ({
            let st = ParserView { pending: Seq::empty(), enabled: en };
            &&& spec_feed_state(st, chunk) == st
            &&& spec_feed_outputs(spec_feed_state(st, chunk), chunk) == spec_feed_outputs(
                st,
                chunk,
            )
        }),
{
    let st = ParserView { pending: Seq::empty(), enabled: en };
    assert(chunk + Seq::<u8>::empty() =~= chunk);
    lemma_fragmentation_invariance(en, Seq::<u8>::empty(), chunk, Seq::<u8>::empty());
    let mid = spec_feed_state(st, chunk);
    // a well-framed leftover with no further input must be the empty fragment
    assert(mid.pending + Seq::<u8>::empty() =~= mid.pending);
    crate::scan::lemma_split_on_free(mid.pending, LF);
    assert(split_on(mid.pending, LF) == seq![mid.pending]);
    assert(seq![mid.pending].last() == mid.pending);
    assert(mid.pending =~= Seq::<u8>::empty());
    assert(mid == st);
}

/// Splitting one well-framed chunk at any byte boundary across two calls
/// from a parser with nothing pending yields the same ordered message
/// sequence, and the same final state, as feeding the chunk in one call.
pub proof fn lemma_chunk_split(en: u32, chunk: Seq<u8>, k: int)
    requires
        wf_stream(Seq::<u8>::empty(), chunk),
        0 <= k <= chunk.len(),
    ensures
        ({
            let st = ParserView { pending: Seq::empty(), enabled: en };
            let mid = spec_feed_state(st, chunk.take(k));
            &&& spec_feed_outputs(st, chunk) == spec_feed_outputs(st, chunk.take(k))
                + spec_feed_outputs(mid, chunk.skip(k))
            &&& spec_feed_state(st, chunk) == spec_feed_state(mid, chunk.skip(k))
            &&& wf_stream(mid.pending, chunk.skip(k))
        }),
{
    assert(chunk.take(k) + chunk.skip(k) =~= chunk);
    lemma_fragmentation_invariance(en, Seq::<u8>::empty(), chunk.take(k), chunk.skip(k));
}

/// Every line that carries a valid checksum and a recognized, enabled
/// sentence code is accepted: fed as a candidate it runs the matching
/// decoder and produces its record, whatever fragment may be pending.
pub proof fn lemma_valid_line_accepted(
    st: ParserView,
    talker: Seq<u8>,
    f: SentenceFormatter,
    body: Seq<u8>,
)
    requires
        talker.len() == 2,
        forall|j: int| 0 <= j < talker.len() ==> talker[j] != STAR && talker[j] != COMMA,
        forall|j: int| 0 <= j < body.len() ==> body[j] != STAR,
        spec_enabled(st.enabled, f),
    ensures
        spec_step(st, frame_line(talker, f, body)) == (st, Some(dispatch(f, body))),
{
    let payload = talker + code_bytes(f) + seq![COMMA] + body;
    let x = spec_xor(payload);
    let cs = checksum_text(x);
    let line = frame_line(talker, f, body);
    let pl = payload.len() as int;
    assert(payload.len() == body.len() + 6);
    assert(line.len() == payload.len() + 5);
    assert(line[0] == DOLLAR);
    assert(line.last() == CR);
    assert(spec_is_complete(line));
    assert(line.len() >= 7);
    // the code sits at the fixed offset behind "$" and the two talker bytes
    assert(line.subrange(3, 6) =~= code_bytes(f));
    assert(spec_formatter(code_bytes(f)) == Some(f)) by {
        match f {
            SentenceFormatter::GGA => {},
            SentenceFormatter::GNS => {
                assert(code_bytes(f) != seq![71u8, 71u8, 65u8]);
            },
            SentenceFormatter::GSA => {
                assert(code_bytes(f) != seq![71u8, 71u8, 65u8]);
                assert(code_bytes(f) != seq![71u8, 78u8, 83u8]);
            },
            SentenceFormatter::RMC => {
                assert(code_bytes(f) != seq![71u8, 71u8, 65u8]);
                assert(code_bytes(f) != seq![71u8, 78u8, 83u8]);
                assert(code_bytes(f) != seq![71u8, 83u8, 65u8]);
            },
        }
    }
    let interior = line.subrange(1, line.len() - 1);
    assert(interior =~= payload + seq![STAR] + cs);
    // the checksum delimiter we placed is the last `*` of the interior
    assert(interior[pl] == STAR);
    assert(interior[pl + 1] != STAR && interior[pl + 2] != STAR);
    lemma_last_pos_props(interior, STAR);
    match last_pos(interior, STAR) {
        Some(k) => {
            if k < pl {
                assert(interior[pl] != STAR);
            }
            if k > pl {
                assert(interior[k] != STAR);
            }
            assert(k == pl);
        },
        None => {
            assert(interior[pl] != STAR);
        },
    }
    assert(spec_payload_of(interior) =~= payload);
    assert(interior.skip(pl + 1) =~= cs);
    lemma_checksum_text_parses(x);
    assert(spec_checksum_of(interior) == x);
    // the first comma of the payload closes the five-byte address
    assert(payload[5] == COMMA);
    assert(forall|j: int| 0 <= j < 5 ==> payload[j] != COMMA);
    lemma_first_pos_props(payload, COMMA);
    match first_pos(payload, COMMA) {
        Some(k) => {
            if k < 5 {
                assert(payload[k] != COMMA);
            }
            if k > 5 {
                assert(payload[5] != COMMA);
            }
            assert(k == 5);
        },
        None => {
            assert(payload[5] != COMMA);
        },
    }
    assert(payload.take(5).skip(2) =~= code_bytes(f));
    assert(payload.skip(6) =~= body);
    reveal(spec_message);
    assert(spec_message(interior) == Some(dispatch(f, body)));
    assert(spec_parse_candidate(line, st.enabled) == Some(dispatch(f, body)));
}

} // verus!
