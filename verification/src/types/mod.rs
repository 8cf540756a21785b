//! Field value types shared by the sentence records: operation, navigation
//! and position modes, the receiver status flag, and the exact fixed-point
//! decimal carrier [`IntegerDecimal`].

use vstd::prelude::*;

use crate::scan::{
    all_digits, digits_val, parse_i32_bytes, spec_parse_i32, split_bytes, split_on, DOT,
};
use crate::text::{dec_digits, int_text, push_i32_text, push_u32_text};
use vstd::slice::slice_subrange;
use vstd::string::StringExecFns;

pub mod date;
pub mod latitude;
pub mod longitude;
pub mod position_mode;
pub mod time;

verus! {

/// GGA reports fix quality with the same code set as the position mode field.
pub type Quality = position_mode::PositionMode;

/// The magnitude of `v`.
pub open spec fn abs_val(v: int) -> int {
    if v < 0 {
        -v
    } else {
        v
    }
}

/// Ten to the `n`th power.
pub open spec fn pow10(n: nat) -> int
    decreases n,
{
    if n == 0 {
        1
    } else {
        10 * pow10((n - 1) as nat)
    }
}

/// Division truncating towards zero, as the `/` operator of the machine
/// integer types behaves (`b` positive).
pub open spec fn tdiv(a: int, b: int) -> int {
    if a >= 0 {
        a / b
    } else {
        -((-a) / b)
    }
}

/// Remainder with the sign of the dividend, as the `%` operator of the
/// machine integer types behaves (`b` positive).
pub open spec fn tmod(a: int, b: int) -> int {
    a - tdiv(a, b) * b
}

pub proof fn lemma_pow10_bounds(n: nat)
    requires
        n <= 9,
    ensures
        1 <= pow10(n) <= 1_000_000_000,
{
    lemma_pow10_bounds_pos(n);
    lemma_pow10_le(n, 9);
    assert(pow10(0) == 1);
    assert(pow10(1) == 10);
    assert(pow10(2) == 100);
    assert(pow10(3) == 1000);
    assert(pow10(4) == 10000);
    assert(pow10(5) == 100000);
    assert(pow10(6) == 1000000);
    assert(pow10(7) == 10000000);
    assert(pow10(8) == 100000000);
    assert(pow10(9) == 1000000000);
}

/// A digit string is worth less than ten to the number of its digits.
pub proof fn lemma_digits_val_upper(s: Seq<u8>)
    requires
        all_digits(s),
    ensures
        digits_val(s) < pow10(s.len() as nat),
    decreases s.len(),
{
    if s.len() > 0 {
        lemma_digits_val_upper(s.drop_last());
    }
}

/// Exhaustive table of the powers of ten that fit a `u32`.
pub fn pow10_u32(n: u8) -> (r: u32)
    requires
        n <= 9,
    ensures
        r as int == pow10(n as nat),
{
    proof {
        assert(pow10(0) == 1);
        assert(pow10(1) == 10);
        assert(pow10(2) == 100);
        assert(pow10(3) == 1000);
        assert(pow10(4) == 10000);
        assert(pow10(5) == 100000);
        assert(pow10(6) == 1000000);
        assert(pow10(7) == 10000000);
        assert(pow10(8) == 100000000);
        assert(pow10(9) == 1000000000);
    }
    match n {
        0 => 1,
        1 => 10,
        2 => 100,
        3 => 1000,
        4 => 10000,
        5 => 100000,
        6 => 1000000,
        7 => 10000000,
        8 => 100000000,
        _ => 1000000000,
    }
}

/// Whether the GSA solution was selected automatically or forced manually.
#[derive(Copy, Clone, Debug, PartialEq, Eq, Structural)]
pub enum OperationMode {
    Auto,
    Manual,
}

impl Default for OperationMode {
    fn default() -> (r: Self)
        ensures
            r == OperationMode::Manual,
    {
        OperationMode::Manual
    }
}

/// The mode field decoded from its first byte; a missing field reads as
/// manual.
pub open spec fn spec_operation_mode(s: Seq<u8>) -> OperationMode {
    let b: u8 = if s.len() == 0 {
        77
    } else {
        s[0]
    };
    if b == 65 {
        OperationMode::Auto
    } else {
        OperationMode::Manual
    }
}

impl OperationMode {
    /// Decodes the GSA operation-mode field.
    pub fn from_bytes(s: &[u8]) -> (r: Self)
        ensures
            r == spec_operation_mode(s@),
    {
        let b: u8 = if s.len() == 0 {
            77
        } else {
            s[0]
        };
        if b == 65 {
            OperationMode::Auto
        } else {
            OperationMode::Manual
        }
    }
}

/// The kind of fix a GSA sentence reports.
#[derive(Copy, Clone, Debug, PartialEq, Eq, Structural)]
pub enum NavigationMode {
    NoFix,
    _3DFix,
    _2DFix,
}

impl Default for NavigationMode {
    fn default() -> (r: Self)
        ensures
            r == NavigationMode::NoFix,
    {
        NavigationMode::NoFix
    }
}

/// The navigation-mode field decoded from its first byte; a missing field
/// reads as no fix.
pub open spec fn spec_navigation_mode(s: Seq<u8>) -> NavigationMode {
    let b: u8 = if s.len() == 0 {
        49
    } else {
        s[0]
    };
    if b == 50 {
        NavigationMode::_2DFix
    } else if b == 51 {
        NavigationMode::_3DFix
    } else {
        NavigationMode::NoFix
    }
}

impl NavigationMode {
    /// Decodes the GSA navigation-mode field.
    pub fn from_bytes(s: &[u8]) -> (r: Self)
        ensures
            r == spec_navigation_mode(s@),
    {
        let b: u8 = if s.len() == 0 {
            49
        } else {
            s[0]
        };
        if b == 50 {
            NavigationMode::_2DFix
        } else if b == 51 {
            NavigationMode::_3DFix
        } else {
            NavigationMode::NoFix
        }
    }
}

/// Receiver data-valid flag: true exactly when the field reads `A`.
#[derive(Copy, Clone, Debug, PartialEq, Eq, Structural)]
pub struct Status(pub bool);

impl Default for Status {
    fn default() -> (r: Self)
        ensures
            r == Status(false),
    {
        Status(false)
    }
}

/// The status field decoded from its first byte; a missing field reads as
/// void.
pub open spec fn spec_status(s: Seq<u8>) -> Status {
    let b: u8 = if s.len() == 0 {
        86
    } else {
        s[0]
    };
    Status(b == 65)
}

impl Status {
    /// Decodes a status field.
    pub fn from_bytes(s: &[u8]) -> (r: Self)
        ensures
            r == spec_status(s@),
    {
        let b: u8 = if s.len() == 0 {
            86
        } else {
            s[0]
        };
        Status(b == 65)
    }
}

/// An exact decimal number: the digits of the integer and fractional parts
/// combined into one integer, together with the count of fractional digits.
/// `499.6` is held as `number == 4996`, `decimal_length == 1`, so no
/// floating-point rounding ever touches the value.
#[derive(Copy, Clone, Debug, PartialEq, Eq, Structural)]
pub struct IntegerDecimal {
    /// All digits, integer and fractional, as one signed integer.
    pub number: i32,
    /// How many trailing digits of `number` lie behind the decimal point.
    pub decimal_length: u8,
}

impl Default for IntegerDecimal {
    fn default() -> (r: Self)
        ensures
            r == (IntegerDecimal { number: 0, decimal_length: 0 }),
    {
        IntegerDecimal { number: 0, decimal_length: 0 }
    }
}

/// An ASCII decimal field decoded into an [`IntegerDecimal`].  The empty
/// field is the zero value; each part that fails to parse contributes zero;
/// the fractional part is truncated to the nine digits the carrier can hold
/// exactly, and a combination that would not fit the carrier collapses to
/// zero rather than overflowing.
pub open spec fn spec_integer_decimal(s: Seq<u8>) -> IntegerDecimal {
    if s.len() == 0 {
        IntegerDecimal { number: 0, decimal_length: 0 }
    } else {
        let parts = split_on(s, DOT);
        let integer = match spec_parse_i32(parts[0]) {
            Some(v) => v as int,
            None => 0,
        };
        if parts.len() == 1 {
            IntegerDecimal { number: integer as i32, decimal_length: 0 }
        } else {
            let f = parts[1];
            let dl: int = if f.len() < 9 {
                f.len() as int
            } else {
                9
            };
            let dec0 = match spec_parse_i32(f.take(dl)) {
                Some(v) => v as int,
                None => 0,
            };
            let dec = if integer < 0 {
                -dec0
            } else {
                dec0
            };
            let n = integer * pow10(dl as nat) + dec;
            let number: int = if -0x8000_0000 <= n <= 0x7FFF_FFFF {
                n
            } else {
                0
            };
            IntegerDecimal { number: number as i32, decimal_length: dl as u8 }
        }
    }
}

impl IntegerDecimal {
    /// Packs an already-combined digit value and its fractional digit count.
    pub fn new(value: i32, decimal_length: u8) -> (r: Self)
        ensures
            r == (IntegerDecimal { number: value, decimal_length }),
    {
        IntegerDecimal { number: value, decimal_length }
    }

    /// The combined digit value, integer and fractional digits as one.
    pub fn combined(self) -> (r: i32)
        ensures
            r == self.number,
    {
        self.number
    }

    /// The count of fractional digits.
    pub fn decimal_length(self) -> (r: u8)
        ensures
            r == self.decimal_length,
    {
        self.decimal_length
    }

    /// Ten to the fractional digit count, the scale dividing `number`.
    pub fn exp(self) -> (r: u32)
        requires
            self.decimal_length <= 9,
        ensures
            r as int == pow10(self.decimal_length as nat),
    {
        pow10_u32(self.decimal_length)
    }

    /// The integer part, truncated towards zero.
    pub fn integer(self) -> (r: i32)
        requires
            self.decimal_length <= 9,
        ensures
            r as int == tdiv(self.number as int, pow10(self.decimal_length as nat)),
    {
        proof {
            lemma_pow10_bounds(self.decimal_length as nat);
        }
        let e = self.exp() as u64;
        let n = self.number as i64;
        proof {
            lemma_tdiv_tmod_mag(self.number as int, e as int);
        }
        if n >= 0 {
            ((n as u64) / e) as i32
        } else {
            let m = (-n) as u64;
            (-((m / e) as i64)) as i32
        }
    }

    /// The fractional digits, with the sign of `number`.
    pub fn decimal(self) -> (r: i32)
        requires
            self.decimal_length <= 9,
        ensures
            r as int == tmod(self.number as int, pow10(self.decimal_length as nat)),
    {
        proof {
            lemma_pow10_bounds(self.decimal_length as nat);
        }
        let e = self.exp() as u64;
        let n = self.number as i64;
        proof {
            lemma_tdiv_tmod_mag(self.number as int, e as int);
        }
        if n >= 0 {
            ((n as u64) % e) as i32
        } else {
            let m = (-n) as u64;
            (-((m % e) as i64)) as i32
        }
    }

    /// Adds a whole-number delta by shifting it onto the established decimal
    /// scale; a sum that would not fit the carrier leaves the value as it
    /// was.  Used to wrap a westerly magnetic variation by whole degrees.
    pub fn add_whole(&mut self, value: i32)
        requires
            old(self).decimal_length <= 9,
        ensures
            final(self).decimal_length == old(self).decimal_length,
            ({
                let n = old(self).number as int + value as int * pow10(
                    old(self).decimal_length as nat,
                );
                final(self).number as int == if -0x8000_0000 <= n <= 0x7FFF_FFFF {
                    n
                } else {
                    old(self).number as int
                }
            }),
    {
        proof {
            lemma_pow10_bounds(self.decimal_length as nat);
        }
        let e = pow10_u32(self.decimal_length) as i64;
        proof {
            assert((value as i64) * e <= 0x8000_0000i64 * 0x3B9A_CA00i64 && (value as i64) * e
                >= (-0x8000_0000i64) * 0x3B9A_CA00i64) by (nonlinear_arith)
                requires
                    -0x8000_0000i64 <= value as i64 <= 0x7FFF_FFFFi64,
                    1 <= e <= 0x3B9A_CA00i64,
            ;
        }
        let delta = (value as i64) * e;
        let n = self.number as i64 + delta;
        if n >= -0x8000_0000i64 && n <= 0x7FFF_FFFFi64 {
            self.number = n as i32;
        }
    }

    /// Decodes an ASCII decimal field.
    pub fn from_bytes(s: &[u8]) -> (r: Self)
        ensures
            r == spec_integer_decimal(s@),
    {
        if s.len() == 0 {
            return IntegerDecimal { number: 0, decimal_length: 0 };
        }
        let parts = split_bytes(s, DOT);
        proof {
            crate::scan::lemma_split_on_len(s@, DOT);
        }
        let integer = match parse_i32_bytes(parts[0].as_slice()) {
            Some(v) => v,
            None => 0,
        };
        if parts.len() == 1 {
            return IntegerDecimal { number: integer, decimal_length: 0 };
        }
        let f = parts[1].as_slice();
        let dl: usize = if f.len() < 9 {
            f.len()
        } else {
            9
        };
        let head = slice_subrange(f, 0, dl);
        let dec0 = match parse_i32_bytes(head) {
            Some(v) => v,
            None => 0,
        };
        proof {
            lemma_parse_i32_short_bounds(head@);
            lemma_pow10_bounds(dl as nat);
        }
        let dec: i32 = if integer < 0 {
            -dec0
        } else {
            dec0
        };
        let e = pow10_u32(dl as u8) as i64;
        proof {
            assert((integer as i64) * e <= 0x8000_0000i64 * 0x3B9A_CA00i64 && (integer as i64) * e
                >= (-0x8000_0000i64) * 0x3B9A_CA00i64) by (nonlinear_arith)
                requires
                    -0x8000_0000i64 <= integer as i64 <= 0x7FFF_FFFFi64,
                    1 <= e <= 0x3B9A_CA00i64,
            ;
        }
        let n = (integer as i64) * e + (dec as i64);
        let number: i32 = if n >= -0x8000_0000i64 && n <= 0x7FFF_FFFFi64 {
            n as i32
        } else {
            0
        };
        IntegerDecimal { number, decimal_length: dl as u8 }
    }
}

/// The rendering `integer.decimal#length` of a decimal carrier, the parts
/// printed as plain signed integers.
pub open spec fn integer_decimal_text(v: IntegerDecimal) -> Seq<char> {
    int_text(tdiv(v.number as int, pow10(v.decimal_length as nat))) + seq!['.'] + int_text(
        tmod(v.number as int, pow10(v.decimal_length as nat)),
    ) + seq!['#'] + dec_digits(v.decimal_length as nat)
}

impl IntegerDecimal {
    /// Renders the value as `integer.decimal#length`.
    pub fn to_text(self) -> (r: String)
        requires
            self.decimal_length <= 9,
        ensures
            r@ == integer_decimal_text(self),
    {
        proof {
            reveal_strlit(".");
            reveal_strlit("#");
        }
        let mut s = String::new();
        push_i32_text(&mut s, self.integer());
        s.append(".");
        push_i32_text(&mut s, self.decimal());
        s.append("#");
        push_u32_text(&mut s, self.decimal_length as u32);
        proof {
            assert(s@ =~= integer_decimal_text(self));
        }
        s
    }
}

/// A decoded decimal field never carries more than nine fractional digits.
pub proof fn lemma_integer_decimal_len(s: Seq<u8>)
    ensures
        spec_integer_decimal(s).decimal_length <= 9,
{
}

/// A signed decimal string of at most nine digits stays well inside the
/// `i32` range.
pub proof fn lemma_parse_i32_short_bounds(s: Seq<u8>)
    requires
        s.len() <= 9,
    ensures
        match spec_parse_i32(s) {
            Some(v) => -1_000_000_000 < v < 1_000_000_000,
            None => true,
        },
{
    lemma_pow10_bounds(9);
    if s.len() > 0 && s[0] == crate::scan::MINUS {
        let t = s.drop_first();
        if t.len() > 0 && all_digits(t) {
            lemma_digits_val_upper(t);
            lemma_pow10_le(t.len() as nat, 9);
            assert(digits_val(t) < pow10(t.len() as nat));
            assert(pow10(t.len() as nat) <= pow10(9));
            assert(digits_val(t) < 1_000_000_000);
            crate::scan::lemma_digits_val_bounds(t);
        }
    } else {
        let t = crate::scan::strip_plus(s);
        if t.len() > 0 && all_digits(t) {
            lemma_digits_val_upper(t);
            lemma_pow10_le(t.len() as nat, 9);
            assert(digits_val(t) < pow10(t.len() as nat));
            assert(pow10(t.len() as nat) <= pow10(9));
            assert(digits_val(t) < 1_000_000_000);
            crate::scan::lemma_digits_val_bounds(t);
        }
    }
}

/// An angle field `dddmm.mmmmm` decoded to the combined digit value
/// `integer * 100000 + decimal`, the fixed scale latitude and longitude use.
/// Parts that fail to parse read as zero; a combination that would not fit
/// the carrier (or would forbid negation) collapses to zero.
pub open spec fn spec_coordinate(s: Seq<u8>) -> i32 {
    if s.len() == 0 {
        0
    } else {
        let parts = split_on(s, DOT);
        let integer = match spec_parse_i32(parts[0]) {
            Some(v) => v as int,
            None => 0,
        };
        let dec = if parts.len() == 1 {
            0
        } else {
            match spec_parse_i32(parts[1]) {
                Some(v) => v as int,
                None => 0,
            }
        };
        let n = integer * 100000 + dec;
        if -0x7FFF_FFFF <= n <= 0x7FFF_FFFF {
            n as i32
        } else {
            0
        }
    }
}

/// Decodes an angle field to its combined digit value.
pub fn parse_coordinate(s: &[u8]) -> (r: i32)
    ensures
        r == spec_coordinate(s@),
        r != i32::MIN,
{
    if s.len() == 0 {
        return 0;
    }
    let parts = split_bytes(s, DOT);
    proof {
        crate::scan::lemma_split_on_len(s@, DOT);
    }
    let integer: i32 = match parse_i32_bytes(parts[0].as_slice()) {
        Some(v) => v,
        None => 0,
    };
    let dec: i32 = if parts.len() == 1 {
        0
    } else {
        match parse_i32_bytes(parts[1].as_slice()) {
            Some(v) => v,
            None => 0,
        }
    };
    let n = (integer as i64) * 100000i64 + (dec as i64);
    proof {
        assert((integer as i64) * 100000i64 <= 0x8000_0000i64 * 100000i64 && (integer as i64)
            * 100000i64 >= (-0x8000_0000i64) * 100000i64) by (nonlinear_arith)
            requires
                -0x8000_0000i64 <= integer as i64 <= 0x7FFF_FFFFi64,
        ;
    }
    if n >= -0x7FFF_FFFFi64 && n <= 0x7FFF_FFFFi64 {
        n as i32
    } else {
        0
    }
}

/// Truncating division and remainder agree with the magnitude computation
/// the executable code performs.
proof fn lemma_tdiv_tmod_mag(a: int, b: int)
    requires
        b > 0,
    ensures
        a >= 0 ==> tdiv(a, b) == a / b && tmod(a, b) == a % b,
        a < 0 ==> tdiv(a, b) == -((-a) / b) && tmod(a, b) == -((-a) % b),
{
    if a >= 0 {
        vstd::arithmetic::div_mod::lemma_fundamental_div_mod(a, b);
        let q = a / b;
        assert(a == b * q + a % b);
        assert(q * b == b * q) by (nonlinear_arith);
        assert(tmod(a, b) == a - q * b);
        assert(tmod(a, b) == a % b);
    } else {
        vstd::arithmetic::div_mod::lemma_fundamental_div_mod(-a, b);
        let q = (-a) / b;
        assert(-a == b * q + (-a) % b);
        assert((-q) * b == -(q * b) && q * b == b * q) by (nonlinear_arith);
        assert(tmod(a, b) == a + q * b);
        assert((-a) % b == -a - b * q);
        assert(tmod(a, b) == -((-a) % b));
    }
}

pub proof fn lemma_pow10_le(a: nat, b: nat)
    requires
        a <= b,
    ensures
        pow10(a) <= pow10(b),
    decreases b,
{
    if a < b {
        lemma_pow10_le(a, (b - 1) as nat);
        lemma_pow10_bounds_pos((b - 1) as nat);
    }
}

pub proof fn lemma_pow10_bounds_pos(n: nat)
    ensures
        pow10(n) >= 1,
    decreases n,
{
    if n > 0 {
        lemma_pow10_bounds_pos((n - 1) as nat);
    }
}

} // verus!
