//! Byte-level scanning helpers shared by the framing layer and the field
//! decoders: splitting on a separator byte, locating delimiters, the XOR
//! checksum fold, and ASCII decimal / hexadecimal number parsing.

use vstd::prelude::*;

verus! {

/// Line feed, the byte that separates candidate lines in the input stream.
pub const LF: u8 = 10;
/// Carriage return, the sentence-end marker.
pub const CR: u8 = 13;
/// Dollar sign, the sentence-start marker.
pub const DOLLAR: u8 = 36;
/// Asterisk, the delimiter in front of the checksum field.
pub const STAR: u8 = 42;
/// Plus sign, accepted as an explicit positive sign by the number parsers.
pub const PLUS: u8 = 43;
/// Comma, the field separator inside a sentence.
pub const COMMA: u8 = 44;
/// Minus sign.
pub const MINUS: u8 = 45;
/// Full stop, the decimal point inside a numeric field.
pub const DOT: u8 = 46;

/// The pieces of `s` between occurrences of `sep`, in order.  A sequence
/// without the separator yields itself as the only piece; every separator
/// contributes one further piece, so the result is never empty.
pub open spec fn split_on(s: Seq<u8>, sep: u8) -> Seq<Seq<u8>>
    decreases s.len(),
{
    if s.len() == 0 {
        seq![Seq::<u8>::empty()]
    } else if s[0] == sep {
        seq![Seq::<u8>::empty()] + split_on(s.drop_first(), sep)
    } else {
        let r = split_on(s.drop_first(), sep);
        seq![seq![s[0]] + r[0]] + r.drop_first()
    }
}

pub proof fn lemma_split_on_len(s: Seq<u8>, sep: u8)
    ensures
        split_on(s, sep).len() >= 1,
    decreases s.len(),
{
    if s.len() > 0 {
        lemma_split_on_len(s.drop_first(), sep);
    }
}

/// No piece produced by `split_on` contains the separator.
pub proof fn lemma_split_on_pieces_free(s: Seq<u8>, sep: u8)
    ensures
        forall|i: int, j: int|
            0 <= i < split_on(s, sep).len() && 0 <= j < split_on(s, sep)[i].len()
                ==> split_on(s, sep)[i][j] != sep,
    decreases s.len(),
{
    if s.len() == 0 {
    } else if s[0] == sep {
        lemma_split_on_pieces_free(s.drop_first(), sep);
        let c = split_on(s, sep);
        let c1 = split_on(s.drop_first(), sep);
        assert forall|i: int, j: int| 0 <= i < c.len() && 0 <= j < c[i].len()
            implies c[i][j] != sep by {
            if i > 0 {
                assert(c[i] == c1[i - 1]);
            }
        }
    } else {
        lemma_split_on_pieces_free(s.drop_first(), sep);
        lemma_split_on_len(s.drop_first(), sep);
        let c = split_on(s, sep);
        let c1 = split_on(s.drop_first(), sep);
        assert forall|i: int, j: int| 0 <= i < c.len() && 0 <= j < c[i].len()
            implies c[i][j] != sep by {
            if i == 0 {
                assert(c[0] == seq![s[0]] + c1[0]);
                if j > 0 {
                    assert(c[0][j] == c1[0][j - 1]);
                }
            } else {
                assert(c[i] == c1.drop_first()[i - 1]);
                assert(c[i] == c1[i]);
            }
        }
    }
}

/// A sequence free of the separator splits into exactly itself.
pub proof fn lemma_split_on_free(s: Seq<u8>, sep: u8)
    requires
        forall|i: int| 0 <= i < s.len() ==> s[i] != sep,
    ensures
        split_on(s, sep) == seq![s],
    decreases s.len(),
{
    if s.len() == 0 {
        assert(split_on(s, sep) =~~= seq![s]);
    } else {
        lemma_split_on_free(s.drop_first(), sep);
        assert(seq![s[0]] + s.drop_first() =~= s);
        assert(split_on(s, sep) =~~= seq![s]);
    }
}

/// A split without a second piece covers the whole sequence.
pub proof fn lemma_split_on_single(s: Seq<u8>, sep: u8)
    requires
        split_on(s, sep).len() == 1,
    ensures
        split_on(s, sep)[0] == s,
    decreases s.len(),
{
    if s.len() == 0 {
        assert(split_on(s, sep)[0] =~= s);
    } else if s[0] == sep {
        lemma_split_on_len(s.drop_first(), sep);
    } else {
        let r = split_on(s.drop_first(), sep);
        lemma_split_on_len(s.drop_first(), sep);
        if r.len() >= 2 {
            assert(split_on(s, sep).len() >= 2);
        }
        lemma_split_on_single(s.drop_first(), sep);
        assert(seq![s[0]] + r[0] =~= s);
    }
}

/// Splitting `a + [sep] + rest` with a separator-free `a` peels off `a` as
/// the first piece.
pub proof fn lemma_split_on_sep(a: Seq<u8>, rest: Seq<u8>, sep: u8)
    requires
        forall|i: int| 0 <= i < a.len() ==> a[i] != sep,
    ensures
        split_on(a + seq![sep] + rest, sep) == seq![a] + split_on(rest, sep),
    decreases a.len(),
{
    let s = a + seq![sep] + rest;
    if a.len() == 0 {
        assert(s[0] == sep);
        assert(s.drop_first() =~= rest);
        assert(split_on(s, sep) =~~= seq![a] + split_on(rest, sep));
    } else {
        assert(s[0] == a[0]);
        assert(s.drop_first() =~= a.drop_first() + seq![sep] + rest);
        lemma_split_on_sep(a.drop_first(), rest, sep);
        let r = split_on(s.drop_first(), sep);
        lemma_split_on_len(rest, sep);
        assert(r[0] == a.drop_first());
        assert(seq![s[0]] + r[0] =~= a);
        assert(r.drop_first() =~= split_on(rest, sep));
        assert(split_on(s, sep) =~~= seq![a] + split_on(rest, sep));
    }
}

/// How splitting distributes over concatenation: the pieces of `x + y` are
/// the pieces of `x`, the pieces of `y`, and the last piece of `x` merged
/// with the first piece of `y` where the two sequences join.
pub proof fn lemma_split_on_concat(x: Seq<u8>, y: Seq<u8>, sep: u8)
    ensures
        split_on(x + y, sep) == split_on(x, sep).drop_last()
            + seq![split_on(x, sep).last() + split_on(y, sep).first()]
            + split_on(y, sep).drop_first(),
    decreases x.len(),
{
    lemma_split_on_len(x, sep);
    lemma_split_on_len(y, sep);
    let cx = split_on(x, sep);
    let cy = split_on(y, sep);
    if x.len() == 0 {
        assert(x + y =~= y);
        assert(cx =~~= seq![Seq::<u8>::empty()]);
        assert(Seq::<u8>::empty() + cy.first() =~= cy.first());
        assert(split_on(y, sep) =~~= cx.drop_last() + seq![cx.last() + cy.first()]
            + cy.drop_first());
    } else {
        let s = x + y;
        assert(s[0] == x[0]);
        assert(s.drop_first() =~= x.drop_first() + y);
        lemma_split_on_concat(x.drop_first(), y, sep);
        let cx1 = split_on(x.drop_first(), sep);
        lemma_split_on_len(x.drop_first(), sep);
        let r = split_on(s.drop_first(), sep);
        if x[0] == sep {
            assert(cx =~~= seq![Seq::<u8>::empty()] + cx1);
            assert(cx.last() == cx1.last());
            assert(cx.drop_last() =~= seq![Seq::<u8>::empty()] + cx1.drop_last());
            assert(split_on(s, sep) =~~= cx.drop_last() + seq![cx.last() + cy.first()]
                + cy.drop_first());
        } else {
            // r = cx1.drop_last() + [cx1.last() + cy.first()] + cy.drop_first()
            if cx1.len() == 1 {
                assert(cx =~~= seq![seq![x[0]] + cx1[0]]);
                assert(r[0] == cx1.last() + cy.first());
                assert(seq![s[0]] + r[0] =~= (seq![x[0]] + cx1.last()) + cy.first());
                assert(r.drop_first() =~= cy.drop_first());
                assert(split_on(s, sep) =~~= cx.drop_last() + seq![cx.last() + cy.first()]
                    + cy.drop_first());
            } else {
                assert(r[0] == cx1[0]);
                assert(cx =~~= seq![seq![x[0]] + cx1[0]] + cx1.drop_first());
                assert(cx.last() == cx1.last());
                assert(split_on(s, sep) =~~= seq![seq![s[0]] + r[0]] + r.drop_first());
                assert(cx.drop_last() =~= seq![seq![x[0]] + cx1[0]] + cx1.drop_first().drop_last());
                assert(r.drop_first() =~= cx1.drop_first().drop_last()
                    + seq![cx1.last() + cy.first()] + cy.drop_first());
                assert(split_on(s, sep) =~~= cx.drop_last() + seq![cx.last() + cy.first()]
                    + cy.drop_first());
            }
        }
    }
}

/// Splits `bytes` on the separator, returning each piece as an owned vector.
pub fn split_bytes(bytes: &[u8], sep: u8) -> (r: Vec<Vec<u8>>)
    ensures
        r@.len() == split_on(bytes@, sep).len(),
        forall|i: int| 0 <= i < r@.len() ==> r@[i]@ == split_on(bytes@, sep)[i],
{
    let ghost s = bytes@;
    let mut pieces: Vec<Vec<u8>> = Vec::new();
    let mut cur: Vec<u8> = Vec::new();
    let mut i: usize = 0;
    proof {
        assert(cur@ + s.skip(0) =~= s);
    }
    while i < bytes.len()
        invariant
            0 <= i <= s.len(),
            bytes@ == s,
            forall|j: int| 0 <= j < cur@.len() ==> cur@[j] != sep,
            split_on(s, sep) == pieces@.map_values(|p: Vec<u8>| p@)
                + split_on(cur@ + s.skip(i as int), sep),
        decreases s.len() - i,
    {
        let b = bytes[i];
        proof {
            assert(s.skip(i as int) =~= seq![s[i as int]] + s.skip(i + 1));
        }
        if b == sep {
            proof {
                assert(cur@ + s.skip(i as int) =~= cur@ + seq![sep] + s.skip(i + 1));
                lemma_split_on_sep(cur@, s.skip(i + 1), sep);
            }
            let ghost done = cur@;
            let ghost before = pieces@;
            pieces.push(cur);
            cur = Vec::new();
            proof {
                assert(pieces@.map_values(|p: Vec<u8>| p@)
                    =~= before.map_values(|p: Vec<u8>| p@) + seq![done]);
                assert(cur@ + s.skip(i + 1) =~= s.skip(i + 1));
                assert(split_on(s, sep) == pieces@.map_values(|p: Vec<u8>| p@)
                    + split_on(cur@ + s.skip(i + 1), sep));
            }
        } else {
            let ghost prev = cur@;
            cur.push(b);
            proof {
                assert(cur@ =~= prev + seq![b]);
                assert(cur@ + s.skip(i + 1) =~= prev + s.skip(i as int));
            }
        }
        i = i + 1;
    }
    proof {
        assert(cur@ + s.skip(i as int) =~= cur@);
        lemma_split_on_free(cur@, sep);
    }
    let ghost done = cur@;
    let ghost before = pieces@;
    pieces.push(cur);
    proof {
        assert(pieces@.map_values(|p: Vec<u8>| p@)
            =~= before.map_values(|p: Vec<u8>| p@) + seq![done]);
        assert(split_on(s, sep) =~= pieces@.map_values(|p: Vec<u8>| p@));
    }
    pieces
}

/// `b` is an ASCII decimal digit.
pub open spec fn is_digit(b: u8) -> bool {
    48 <= b <= 57
}

/// Every byte of `s` is an ASCII decimal digit.
pub open spec fn all_digits(s: Seq<u8>) -> bool {
    forall|i: int| 0 <= i < s.len() ==> is_digit(s[i])
}

/// The value of `s` read as a big-endian string of decimal digits.
pub open spec fn digits_val(s: Seq<u8>) -> int
    decreases s.len(),
{
    if s.len() == 0 {
        0
    } else {
        digits_val(s.drop_last()) * 10 + (s.last() - 48)
    }
}

pub proof fn lemma_digits_val_bounds(s: Seq<u8>)
    requires
        all_digits(s),
    ensures
        0 <= digits_val(s),
    decreases s.len(),
{
    if s.len() > 0 {
        lemma_digits_val_bounds(s.drop_last());
    }
}

/// A digit string is worth at least any of its prefixes.
pub proof fn lemma_digits_val_prefix(s: Seq<u8>, i: int)
    requires
        all_digits(s),
        0 <= i <= s.len(),
    ensures
        digits_val(s.take(i)) <= digits_val(s),
    decreases s.len(),
{
    if i < s.len() {
        assert(s.take(i) == s.drop_last().take(i));
        lemma_digits_val_prefix(s.drop_last(), i);
        lemma_digits_val_bounds(s.drop_last());
    } else {
        assert(s.take(i) == s);
    }
}

/// `s` with one leading plus sign removed, the form the decimal parsers work on.
pub open spec fn strip_plus(s: Seq<u8>) -> Seq<u8> {
    if s.len() > 0 && s[0] == PLUS {
        s.drop_first()
    } else {
        s
    }
}

/// The unsigned decimal reading of `s`, `None` when `s` (after an optional
/// plus sign) is empty, contains a non-digit, or exceeds `max`.
pub open spec fn spec_parse_dec(s: Seq<u8>, max: int) -> Option<int> {
    let t = strip_plus(s);
    if t.len() > 0 && all_digits(t) && digits_val(t) <= max {
        Some(digits_val(t))
    } else {
        None
    }
}

/// `u32::from_str`-style reading of `s`.
pub open spec fn spec_parse_u32(s: Seq<u8>) -> Option<u32> {
    match spec_parse_dec(s, 0xFFFF_FFFF) {
        Some(v) => Some(v as u32),
        None => None,
    }
}

/// `u8::from_str`-style reading of `s`.
pub open spec fn spec_parse_u8(s: Seq<u8>) -> Option<u8> {
    match spec_parse_dec(s, 255) {
        Some(v) => Some(v as u8),
        None => None,
    }
}

/// `i32::from_str`-style reading of `s`: an optional sign followed by digits.
pub open spec fn spec_parse_i32(s: Seq<u8>) -> Option<i32> {
    if s.len() > 0 && s[0] == MINUS {
        let t = s.drop_first();
        if t.len() > 0 && all_digits(t) && digits_val(t) <= 0x8000_0000 {
            Some((-digits_val(t)) as i32)
        } else {
            None
        }
    } else {
        match spec_parse_dec(s, 0x7FFF_FFFF) {
            Some(v) => Some(v as i32),
            None => None,
        }
    }
}

/// Shared digit scanner: the unsigned value of `s[from..]`, bounded by `max`.
fn scan_dec(s: &[u8], from: usize, max: u64) -> (r: Option<u64>)
    requires
        from <= s@.len(),
        max <= 0x1_0000_0000u64,
    ensures
        ({
            let t = s@.skip(from as int);
            match r {
                Some(v) => t.len() > 0 && all_digits(t) && digits_val(t) == v && v <= max,
                None => !(t.len() > 0 && all_digits(t) && digits_val(t) <= max),
            }
        }),
{
    let ghost t = s@.skip(from as int);
    if from == s.len() {
        return None;
    }
    let mut acc: u64 = 0;
    let mut i: usize = from;
    while i < s.len()
        invariant
            from <= i <= s@.len(),
            from < s@.len(),
            t == s@.skip(from as int),
            max <= 0x1_0000_0000u64,
            all_digits(t.take(i - from)),
            acc == digits_val(t.take(i - from)),
            acc <= max,
        decreases s@.len() - i,
    {
        let b = s[i];
        proof {
            assert(t.take(i - from + 1).drop_last() == t.take(i - from));
            assert(t.take(i - from + 1).last() == s@[i as int]);
        }
        if b < 48 || b > 57 {
            proof {
                assert(t[i - from] == b);
                assert(!all_digits(t));
            }
            return None;
        }
        let d = (b - 48) as u64;
        let next = acc * 10 + d;
        if next > max {
            proof {
                assert(digits_val(t.take(i - from + 1)) == next);
                if all_digits(t) {
                    lemma_digits_val_prefix(t, i - from + 1);
                }
            }
            return None;
        }
        acc = next;
        i = i + 1;
    }
    proof {
        assert(t.take(i - from) == t);
    }
    Some(acc)
}

/// Reads `s` as `u32::from_str` would.
pub fn parse_u32_bytes(s: &[u8]) -> (r: Option<u32>)
    ensures
        r == spec_parse_u32(s@),
{
    let from: usize = if s.len() > 0 && s[0] == PLUS {
        1
    } else {
        0
    };
    proof {
        assert(s@.skip(from as int) == strip_plus(s@));
    }
    match scan_dec(s, from, 0xFFFF_FFFF) {
        Some(v) => Some(v as u32),
        None => None,
    }
}

/// Reads `s` as `u8::from_str` would.
pub fn parse_u8_bytes(s: &[u8]) -> (r: Option<u8>)
    ensures
        r == spec_parse_u8(s@),
{
    let from: usize = if s.len() > 0 && s[0] == PLUS {
        1
    } else {
        0
    };
    proof {
        assert(s@.skip(from as int) == strip_plus(s@));
    }
    match scan_dec(s, from, 255) {
        Some(v) => Some(v as u8),
        None => None,
    }
}

/// Reads `s` as `i32::from_str` would.
pub fn parse_i32_bytes(s: &[u8]) -> (r: Option<i32>)
    ensures
        r == spec_parse_i32(s@),
{
    if s.len() > 0 && s[0] == MINUS {
        proof {
            assert(s@.skip(1) == s@.drop_first());
        }
        match scan_dec(s, 1, 0x8000_0000) {
            Some(v) => Some((-(v as i64)) as i32),
            None => None,
        }
    } else {
        let from: usize = if s.len() > 0 && s[0] == PLUS {
            1
        } else {
            0
        };
        proof {
            assert(s@.skip(from as int) == strip_plus(s@));
        }
        match scan_dec(s, from, 0x7FFF_FFFF) {
            Some(v) => Some(v as i32),
            None => None,
        }
    }
}

/// `b` is an ASCII hexadecimal digit.
pub open spec fn is_hex_digit(b: u8) -> bool {
    is_digit(b) || (65 <= b <= 70) || (97 <= b <= 102)
}

/// The numeric value of one hexadecimal digit.
pub open spec fn hex_digit_val(b: u8) -> int {
    if is_digit(b) {
        b - 48
    } else if 65 <= b <= 70 {
        b - 55
    } else {
        b - 87
    }
}

/// Every byte of `s` is a hexadecimal digit.
pub open spec fn all_hex_digits(s: Seq<u8>) -> bool {
    forall|i: int| 0 <= i < s.len() ==> is_hex_digit(s[i])
}

/// The value of `s` read as big-endian hexadecimal digits.
pub open spec fn hex_val(s: Seq<u8>) -> int
    decreases s.len(),
{
    if s.len() == 0 {
        0
    } else {
        hex_val(s.drop_last()) * 16 + hex_digit_val(s.last())
    }
}

/// `u8::from_str_radix(s, 16)`-style reading of `s`.
pub open spec fn spec_parse_hex_u8(s: Seq<u8>) -> Option<u8> {
    let t = strip_plus(s);
    if t.len() > 0 && all_hex_digits(t) && hex_val(t) <= 255 {
        Some(hex_val(t) as u8)
    } else {
        None
    }
}

pub proof fn lemma_hex_val_bounds(s: Seq<u8>)
    requires
        all_hex_digits(s),
    ensures
        0 <= hex_val(s),
    decreases s.len(),
{
    if s.len() > 0 {
        lemma_hex_val_bounds(s.drop_last());
    }
}

proof fn lemma_hex_val_prefix(s: Seq<u8>, i: int)
    requires
        all_hex_digits(s),
        0 <= i <= s.len(),
    ensures
        hex_val(s.take(i)) <= hex_val(s),
    decreases s.len(),
{
    if i < s.len() {
        assert(s.take(i) == s.drop_last().take(i));
        lemma_hex_val_prefix(s.drop_last(), i);
        lemma_hex_val_bounds(s.drop_last());
    } else {
        assert(s.take(i) == s);
    }
}

/// Reads `s` as `u8::from_str_radix(s, 16)` would.
pub fn parse_hex_u8_bytes(s: &[u8]) -> (r: Option<u8>)
    ensures
        r == spec_parse_hex_u8(s@),
{
    let from: usize = if s.len() > 0 && s[0] == PLUS {
        1
    } else {
        0
    };
    let ghost t = strip_plus(s@);
    proof {
        assert(s@.skip(from as int) == t);
    }
    if from == s.len() {
        return None;
    }
    let mut acc: u32 = 0;
    let mut i: usize = from;
    while i < s.len()
        invariant
            from <= i <= s@.len(),
            from < s@.len(),
            t == s@.skip(from as int),
            t == strip_plus(s@),
            all_hex_digits(t.take(i - from)),
            acc == hex_val(t.take(i - from)),
            acc <= 255,
        decreases s@.len() - i,
    {
        let b = s[i];
        proof {
            assert(t.take(i - from + 1).drop_last() == t.take(i - from));
            assert(t.take(i - from + 1).last() == s@[i as int]);
        }
        let d: u32 = if b >= 48 && b <= 57 {
            (b - 48) as u32
        } else if b >= 65 && b <= 70 {
            (b - 55) as u32
        } else if b >= 97 && b <= 102 {
            (b - 87) as u32
        } else {
            proof {
                assert(t[i - from] == b);
                assert(!all_hex_digits(t));
            }
            return None;
        };
        let next = acc * 16 + d;
        if next > 255 {
            proof {
                assert(hex_val(t.take(i - from + 1)) == next);
                if all_hex_digits(t) {
                    lemma_hex_val_prefix(t, i - from + 1);
                }
            }
            return None;
        }
        acc = next;
        i = i + 1;
    }
    proof {
        assert(t.take(i - from) == t);
    }
    Some(acc as u8)
}

/// Whether `s` is exactly the one byte `b`, the form the hemisphere and
/// variation flags take.
pub fn eq_single(s: &[u8], b: u8) -> (r: bool)
    ensures
        r == (s@ == seq![b]),
{
    let r = s.len() == 1 && s[0] == b;
    proof {
        if r {
            assert(s@ =~= seq![b]);
        } else {
            if s@ == seq![b] {
                assert(s@.len() == 1);
                assert(s@[0] == b);
            }
        }
    }
    r
}

/// The XOR fold of every byte of `s`, the NMEA checksum.
pub open spec fn spec_xor(s: Seq<u8>) -> u8
    decreases s.len(),
{
    if s.len() == 0 {
        0
    } else {
        spec_xor(s.drop_last()) ^ s.last()
    }
}

/// Computes the XOR fold of `s`.
pub fn xor_fold(s: &[u8]) -> (r: u8)
    ensures
        r == spec_xor(s@),
{
    let mut acc: u8 = 0;
    let mut i: usize = 0;
    while i < s.len()
        invariant
            0 <= i <= s@.len(),
            acc == spec_xor(s@.take(i as int)),
        decreases s@.len() - i,
    {
        proof {
            assert(s@.take(i + 1).drop_last() == s@.take(i as int));
            assert(s@.take(i + 1).last() == s@[i as int]);
        }
        acc = acc ^ s[i];
        i = i + 1;
    }
    proof {
        assert(s@.take(i as int) == s@);
    }
    acc
}

/// The position of the first occurrence of `b` in `s`, if any.
pub open spec fn first_pos(s: Seq<u8>, b: u8) -> Option<int>
    decreases s.len(),
{
    if s.len() == 0 {
        None
    } else if s[0] == b {
        Some(0)
    } else {
        match first_pos(s.drop_first(), b) {
            Some(j) => Some(j + 1),
            None => None,
        }
    }
}

/// The position of the last occurrence of `b` in `s`, if any.
pub open spec fn last_pos(s: Seq<u8>, b: u8) -> Option<int>
    decreases s.len(),
{
    if s.len() == 0 {
        None
    } else if s.last() == b {
        Some(s.len() - 1)
    } else {
        last_pos(s.drop_last(), b)
    }
}

pub proof fn lemma_first_pos_props(s: Seq<u8>, b: u8)
    ensures
        match first_pos(s, b) {
            Some(i) => 0 <= i < s.len() && s[i] == b && forall|j: int| 0 <= j < i ==> s[j] != b,
            None => forall|j: int| 0 <= j < s.len() ==> s[j] != b,
        },
    decreases s.len(),
{
    if s.len() > 0 && s[0] != b {
        lemma_first_pos_props(s.drop_first(), b);
        let t = s.drop_first();
        match first_pos(t, b) {
            Some(j) => {
                assert(s[j + 1] == t[j]);
                assert forall|k: int| 0 <= k < j + 1 implies s[k] != b by {
                    if k > 0 {
                        assert(s[k] == t[k - 1]);
                    }
                }
            },
            None => {
                assert forall|k: int| 0 <= k < s.len() implies s[k] != b by {
                    if k > 0 {
                        assert(s[k] == t[k - 1]);
                    }
                }
            },
        }
    }
}

pub proof fn lemma_last_pos_props(s: Seq<u8>, b: u8)
    ensures
        match last_pos(s, b) {
            Some(i) => 0 <= i < s.len() && s[i] == b && forall|j: int| i < j < s.len() ==> s[j]
                != b,
            None => forall|j: int| 0 <= j < s.len() ==> s[j] != b,
        },
    decreases s.len(),
{
    if s.len() > 0 && s.last() != b {
        lemma_last_pos_props(s.drop_last(), b);
        let t = s.drop_last();
        match last_pos(t, b) {
            Some(j) => {
                assert(s[j] == t[j]);
                assert forall|k: int| j < k < s.len() implies s[k] != b by {
                    if k < s.len() - 1 {
                        assert(s[k] == t[k]);
                    }
                }
            },
            None => {
                assert forall|k: int| 0 <= k < s.len() implies s[k] != b by {
                    if k < s.len() - 1 {
                        assert(s[k] == t[k]);
                    }
                }
            },
        }
    }
}

/// Finds the first occurrence of `b` in `s`.
pub fn find_first(s: &[u8], b: u8) -> (r: Option<usize>)
    ensures
        match r {
            Some(i) => first_pos(s@, b) == Some(i as int),
            None => first_pos(s@, b) is None,
        },
{
    let mut i: usize = 0;
    while i < s.len()
        invariant
            0 <= i <= s@.len(),
            forall|j: int| 0 <= j < i ==> s@[j] != b,
        decreases s@.len() - i,
    {
        if s[i] == b {
            proof {
                lemma_first_pos_props(s@, b);
                match first_pos(s@, b) {
                    Some(k) => {
                        if k < i {
                            assert(s@[k] != b);
                        }
                        if k > i {
                            assert(s@[i as int] != b);
                        }
                    },
                    None => {
                        assert(s@[i as int] != b);
                    },
                }
            }
            return Some(i);
        }
        i = i + 1;
    }
    proof {
        lemma_first_pos_props(s@, b);
    }
    None
}

/// Finds the last occurrence of `b` in `s`.
pub fn find_last(s: &[u8], b: u8) -> (r: Option<usize>)
    ensures
        match r {
            Some(i) => last_pos(s@, b) == Some(i as int),
            None => last_pos(s@, b) is None,
        },
{
    let mut i: usize = s.len();
    while i > 0
        invariant
            0 <= i <= s@.len(),
            forall|j: int| i <= j < s@.len() ==> s@[j] != b,
        decreases i,
    {
        i = i - 1;
        if s[i] == b {
            proof {
                lemma_last_pos_props(s@, b);
                match last_pos(s@, b) {
                    Some(k) => {
                        if k > i {
                            assert(s@[k] != b);
                        }
                        if k < i {
                            assert(s@[i as int] != b);
                        }
                    },
                    None => {
                        assert(s@[i as int] != b);
                    },
                }
            }
            return Some(i);
        }
    }
    proof {
        lemma_last_pos_props(s@, b);
    }
    None
}

} // verus!
