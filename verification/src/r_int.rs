//! The bounded signed integer type: a 32-bit two's-complement bit pattern
//! with a decimal-string parser, a decimal-string renderer, and wrapping
//! arithmetic operators.

use vstd::prelude::*;
use vstd::string::StringSliceAdditionalSpecFns;

use crate::decimal::{
    all_digits, chars_of, dec_bytes, digit_val, digits_val, is_digit, lemma_dec_bytes_of_digits,
    lemma_dec_bytes_wf, lemma_digits_val_dec_bytes, lemma_digits_val_front, lemma_pow10_pos,
    pow10,
};

verus! {

/// A 32-bit value stored as a raw bit pattern, interpreted as
/// two's-complement signed where its sign matters.
#[derive(Debug)]
pub struct RInt {
    pub bits: u32,
}

/// Why a decimal string failed to parse.
#[derive(Debug, Clone, Copy, PartialEq, Eq, Structural)]
pub enum ParseError {
    /// A byte outside the grammar (sign, digits, one optional dot, digits).
    InvalidDigit,
    /// The accumulated magnitude left the unsigned 32-bit range.
    Overflow,
}

/// State of the parser's automaton.
#[derive(Debug, Clone, Copy, PartialEq, Eq, Structural)]
pub enum State {
    /// Before any byte: a sign or a digit may come.
    Start,
    /// Inside the integer digits: a digit or a dot may come.
    InInteger,
    /// After the dot: only digits may come, and they are discarded.
    InFraction,
}

/// The two's-complement pattern of `-m`, that is `2^32 - m` reduced mod `2^32`.
pub open spec fn neg_bits(m: u32) -> u32 {
    if m == 0 {
        0u32
    } else {
        (0x1_0000_0000 - m) as u32
    }
}

/// The bit pattern that stores magnitude `m` under the given sign.
pub open spec fn signed_bits(neg: bool, m: u32) -> u32 {
    if neg {
        neg_bits(m)
    } else {
        m
    }
}

/// The signed value a bit pattern stands for under two's complement.
pub open spec fn to_signed(bits: u32) -> int {
    if bits < 0x8000_0000 {
        bits as int
    } else {
        bits - 0x1_0000_0000
    }
}

/// One run of the parser's state machine over the remaining input bytes,
/// from state `st`, with magnitude `mag` accumulated and sign `neg` recorded.
pub open spec fn run(s: Seq<u8>, st: State, mag: u32, neg: bool) -> Result<u32, ParseError>
    decreases s.len(),
{
    if s.len() == 0 {
        Ok(signed_bits(neg, mag))
    } else {
        let b = s[0];
        let rest = s.drop_first();
        if st == State::Start && (b == 43 || b == 45) {
            run(rest, State::InInteger, mag, b == 45)
        } else if (st == State::Start || st == State::InInteger) && is_digit(b) {
            if mag * 10 + digit_val(b) > u32::MAX {
                Err(ParseError::Overflow)
            } else {
                run(rest, State::InInteger, (mag * 10 + digit_val(b)) as u32, neg)
            }
        } else if st == State::InInteger && b == 46 {
            run(rest, State::InFraction, mag, neg)
        } else if st == State::InFraction && is_digit(b) {
            run(rest, State::InFraction, mag, neg)
        } else {
            Err(ParseError::InvalidDigit)
        }
    }
}

/// What parsing a byte string returns: the machine run from the start.
pub open spec fn parse_spec(s: Seq<u8>) -> Result<u32, ParseError> {
    run(s, State::Start, 0, false)
}

/// The decimal rendering of a bit pattern: the magnitude recovered by
/// two's-complement negation and a leading `'-'` when the sign bit is set,
/// the pattern itself as an unsigned number otherwise.
pub open spec fn render_bytes(bits: u32) -> Seq<u8> {
    if bits >= 0x8000_0000 {
        seq![45u8] + dec_bytes((0x1_0000_0000 - bits) as nat)
    } else {
        dec_bytes(bits as nat)
    }
}

/// A value reduced into the 32-bit range, as two's-complement wrapping
/// arithmetic produces it.
pub open spec fn wrap32(v: int) -> u32 {
    (v % 0x1_0000_0000) as u32
}

impl std::ops::Add for RInt {
    type Output = RInt;

    /// Wrapping addition: the operands' sum reduced mod `2^32`, which is
    /// two's-complement addition whether the bits are read as signed or
    /// unsigned. Operator overloading leaves no error path, so overflow
    /// wraps instead of failing.
    fn add(self, other: RInt) -> RInt {
        proof {
            lemma_wrap32_in_range(self.bits + other.bits);
        }
        RInt { bits: self.bits.wrapping_add(other.bits) }
    }
}

impl vstd::std_specs::ops::AddSpecImpl for RInt {
    open spec fn obeys_add_spec() -> bool {
        true
    }

    open spec fn add_req(self, other: RInt) -> bool {
        true
    }

    open spec fn add_spec(self, other: RInt) -> RInt {
        RInt { bits: wrap32(self.bits + other.bits) }
    }
}

impl std::ops::Sub for RInt {
    type Output = RInt;

    /// Wrapping subtraction: the operands' difference reduced mod `2^32`.
    fn sub(self, other: RInt) -> RInt {
        proof {
            lemma_wrap32_in_range(self.bits - other.bits);
        }
        RInt { bits: self.bits.wrapping_sub(other.bits) }
    }
}

impl vstd::std_specs::ops::SubSpecImpl for RInt {
    open spec fn obeys_sub_spec() -> bool {
        true
    }

    open spec fn sub_req(self, other: RInt) -> bool {
        true
    }

    open spec fn sub_spec(self, other: RInt) -> RInt {
        RInt { bits: wrap32(self.bits - other.bits) }
    }
}

impl std::ops::Mul for RInt {
    type Output = RInt;

    /// Wrapping multiplication: the operands' product reduced mod `2^32`.
    fn mul(self, other: RInt) -> RInt {
        RInt { bits: self.bits.wrapping_mul(other.bits) }
    }
}

impl vstd::std_specs::ops::MulSpecImpl for RInt {
    open spec fn obeys_mul_spec() -> bool {
        true
    }

    open spec fn mul_req(self, other: RInt) -> bool {
        true
    }

    open spec fn mul_spec(self, other: RInt) -> RInt {
        RInt { bits: wrap32(self.bits * other.bits) }
    }
}

impl std::ops::Div for RInt {
    type Output = RInt;

    /// Division of the stored bits read as unsigned numbers: the sign bit is
    /// not reinterpreted, so a negative pattern divides as its large
    /// unsigned magnitude. A zero divisor is ruled out by the operator's
    /// precondition, since machine division has no defined result for it.
    fn div(self, other: RInt) -> RInt {
        RInt { bits: self.bits / other.bits }
    }
}

impl vstd::std_specs::ops::DivSpecImpl for RInt {
    open spec fn obeys_div_spec() -> bool {
        true
    }

    open spec fn div_req(self, other: RInt) -> bool {
        other.bits != 0
    }

    open spec fn div_spec(self, other: RInt) -> RInt {
        RInt { bits: self.bits / other.bits }
    }
}

impl ParseError {
    /// The human-readable description of the failure.
    pub fn message(&self) -> (r: &'static str)
        ensures
            r@ == match self {
                ParseError::InvalidDigit => "Invalid digit found"@,
                ParseError::Overflow => "Overflow occurred"@,
            },
    {
        match self {
            ParseError::InvalidDigit => "Invalid digit found",
            ParseError::Overflow => "Overflow occurred",
        }
    }
}

/// A sign part of the grammar: nothing, a plus, or a minus.
pub open spec fn sign_ok(g: Seq<u8>) -> bool {
    g.len() == 0 || g == seq![43u8] || g == seq![45u8]
}

/// Whether a sign part records a negative number.
pub open spec fn sign_is_neg(g: Seq<u8>) -> bool {
    g.len() == 1 && g[0] == 45
}

/// A fractional part of the grammar: nothing, or a dot followed by digits.
pub open spec fn frac_ok(f: Seq<u8>) -> bool {
    f.len() == 0 || (f[0] == 46 && all_digits(f.drop_first()))
}

/// After the dot the machine consumes digits without touching the value.
proof fn lemma_run_frac(s: Seq<u8>, mag: u32, neg: bool)
    requires
        all_digits(s),
    ensures
        run(s, State::InFraction, mag, neg) == Ok::<u32, ParseError>(signed_bits(neg, mag)),
    decreases s.len(),
{
    if s.len() > 0 {
        assert(is_digit(s[0]));
        lemma_run_frac(s.drop_first(), mag, neg);
    }
}

/// Over the integer digits the machine accumulates
/// `mag * 10^len + digits_val(digits)`, and fails with `Overflow` exactly
/// when that total leaves the unsigned 32-bit range; a well-formed
/// fractional part after them changes nothing.
proof fn lemma_run_int_part(digits: Seq<u8>, frac: Seq<u8>, st: State, mag: u32, neg: bool)
    requires
        all_digits(digits),
        frac_ok(frac),
        st == State::Start || st == State::InInteger,
        frac.len() > 0 && digits.len() == 0 ==> st == State::InInteger,
    ensures
        mag * pow10(digits.len()) + digits_val(digits) <= u32::MAX ==> run(
            digits + frac,
            st,
            mag,
            neg,
        ) == Ok::<u32, ParseError>(
            signed_bits(neg, (mag * pow10(digits.len()) + digits_val(digits)) as u32),
        ),
        mag * pow10(digits.len()) + digits_val(digits) > u32::MAX ==> run(
            digits + frac,
            st,
            mag,
            neg,
        ) == Err::<u32, ParseError>(ParseError::Overflow),
    decreases digits.len(),
{
    if digits.len() == 0 {
        assert(digits_val(digits) == 0);
        assert(pow10(0) == 1);
        assert(mag * 1 == mag) by (nonlinear_arith);
        assert(digits + frac =~= frac);
        if frac.len() > 0 {
            assert(frac[0] == 46);
            lemma_run_frac(frac.drop_first(), mag, neg);
        }
    } else {
        let b = digits[0];
        let rest = digits.drop_first();
        let k = (digits.len() - 1) as nat;
        assert(is_digit(b));
        assert((digits + frac)[0] == b);
        assert((digits + frac).drop_first() =~= rest + frac);
        lemma_digits_val_front(digits);
        lemma_pow10_pos(k);
        let total = mag * pow10(digits.len()) + digits_val(digits);
        let m2 = mag * 10 + digit_val(b);
        assert(total == m2 * pow10(k) + digits_val(rest)) by (nonlinear_arith)
            requires
                total == mag * pow10(digits.len()) + digits_val(digits),
                digits_val(digits) == digit_val(b) * pow10(k) + digits_val(rest),
                pow10(digits.len()) == 10 * pow10(k),
                m2 == mag * 10 + digit_val(b),
        ;
        assert(total >= m2) by (nonlinear_arith)
            requires
                total == m2 * pow10(k) + digits_val(rest),
                pow10(k) >= 1,
                m2 >= 0,
                digits_val(rest) >= 0,
        ;
        if m2 <= u32::MAX {
            lemma_run_int_part(rest, frac, State::InInteger, m2 as u32, neg);
        }
    }
}

/// Law: a string assembled from the grammar — an optional sign, integer
/// digits, and an optional fractional part — parses to the two's-complement
/// pattern of the signed magnitude of its integer digits, the fractional
/// digits being truncated; it fails with `Overflow` exactly when the
/// magnitude leaves the unsigned 32-bit range.
pub proof fn lemma_parse_decimal(sign: Seq<u8>, digits: Seq<u8>, frac: Seq<u8>)
    requires
        sign_ok(sign),
        all_digits(digits),
        frac_ok(frac),
        frac.len() > 0 ==> sign.len() + digits.len() > 0,
    ensures
        digits_val(digits) <= u32::MAX ==> parse_spec(sign + digits + frac) == Ok::<
            u32,
            ParseError,
        >(signed_bits(sign_is_neg(sign), digits_val(digits) as u32)),
        digits_val(digits) > u32::MAX ==> parse_spec(sign + digits + frac) == Err::<
            u32,
            ParseError,
        >(ParseError::Overflow),
{
    let s = sign + digits + frac;
    if sign.len() == 0 {
        assert(s =~= digits + frac);
        lemma_run_int_part(digits, frac, State::Start, 0, false);
        assert(0 * pow10(digits.len()) == 0) by (nonlinear_arith);
    } else {
        assert(s[0] == sign[0]);
        assert(s.len() > 0);
        assert(s.drop_first() =~= digits + frac);
        lemma_run_int_part(digits, frac, State::InInteger, 0, sign[0] == 45);
        assert(0 * pow10(digits.len()) == 0) by (nonlinear_arith);
    }
}

/// The canonical decimal text of a signed value: its magnitude's digits,
/// behind a minus sign when it is negative.
pub open spec fn canonical_bytes(v: int) -> Seq<u8> {
    if v < 0 {
        seq![45u8] + dec_bytes((-v) as nat)
    } else {
        dec_bytes(v as nat)
    }
}

/// Law: rendering any bit pattern gives the canonical decimal text of the
/// signed value the pattern stands for under two's complement.
pub proof fn lemma_render_signed(bits: u32)
    ensures
        render_bytes(bits) == canonical_bytes(to_signed(bits)),
{
}

/// Law: a canonically written decimal number in the representable signed
/// range parses to the two's-complement pattern of its value, and rendering
/// that pattern gives the text back (the plus sign excepted).
pub proof fn lemma_parse_render_round_trip(sign: Seq<u8>, digits: Seq<u8>)
    requires
        sign_ok(sign),
        all_digits(digits),
        digits.len() >= 1,
        digits[0] != 48 || digits.len() == 1,
        sign_is_neg(sign) ==> 1 <= digits_val(digits) <= 0x8000_0000,
        !sign_is_neg(sign) ==> digits_val(digits) <= 0x7FFF_FFFF,
    ensures
        parse_spec(sign + digits) == Ok::<u32, ParseError>(
            signed_bits(sign_is_neg(sign), digits_val(digits) as u32),
        ),
        render_bytes(signed_bits(sign_is_neg(sign), digits_val(digits) as u32)) == (if sign_is_neg(
            sign,
        ) {
            seq![45u8] + digits
        } else {
            digits
        }),
{
    lemma_parse_decimal(sign, digits, Seq::<u8>::empty());
    assert(sign + digits + Seq::<u8>::empty() =~= sign + digits);
    let m = digits_val(digits) as u32;
    lemma_dec_bytes_of_digits(digits);
    if sign_is_neg(sign) {
        assert(signed_bits(true, m) == neg_bits(m));
        assert(neg_bits(m) >= 0x8000_0000);
        assert((0x1_0000_0000 - neg_bits(m)) as nat == m as nat);
    } else {
        assert(signed_bits(false, m) == m);
    }
}

/// Law: rendering any bit pattern and parsing the text back recovers the
/// pattern exactly, the most negative pattern included.
pub proof fn lemma_render_parse_round_trip(bits: u32)
    ensures
        parse_spec(render_bytes(bits)) == Ok::<u32, ParseError>(bits),
{
    if bits >= 0x8000_0000 {
        let mag = (0x1_0000_0000 - bits) as nat;
        lemma_dec_bytes_wf(mag);
        lemma_digits_val_dec_bytes(mag);
        lemma_parse_decimal(seq![45u8], dec_bytes(mag), Seq::<u8>::empty());
        assert(seq![45u8] + dec_bytes(mag) + Seq::<u8>::empty() =~= seq![45u8] + dec_bytes(mag));
        assert(sign_is_neg(seq![45u8]));
        assert(signed_bits(true, mag as u32) == bits);
    } else {
        let mag = bits as nat;
        lemma_dec_bytes_wf(mag);
        lemma_digits_val_dec_bytes(mag);
        lemma_parse_decimal(Seq::<u8>::empty(), dec_bytes(mag), Seq::<u8>::empty());
        assert(Seq::<u8>::empty() + dec_bytes(mag) + Seq::<u8>::empty() =~= dec_bytes(mag));
        assert(!sign_is_neg(Seq::<u8>::empty()));
    }
}

/// For a value already shifted into `[0, 2^33)` by at most one width,
/// reduction mod `2^32` subtracts at most one multiple.
proof fn lemma_wrap32_in_range(v: int)
    requires
        -0x1_0000_0000 < v < 0x2_0000_0000,
    ensures
        0 <= v < 0x1_0000_0000 ==> wrap32(v) == v,
        v >= 0x1_0000_0000 ==> wrap32(v) == v - 0x1_0000_0000,
        v < 0 ==> wrap32(v) == v + 0x1_0000_0000,
{
    if 0 <= v < 0x1_0000_0000 {
        vstd::arithmetic::div_mod::lemma_small_mod(v as nat, 0x1_0000_0000);
    } else if v >= 0x1_0000_0000 {
        vstd::arithmetic::div_mod::lemma_mod_sub_multiples_vanish(v, 0x1_0000_0000);
        vstd::arithmetic::div_mod::lemma_small_mod((v - 0x1_0000_0000) as nat, 0x1_0000_0000);
    } else {
        vstd::arithmetic::div_mod::lemma_mod_add_multiples_vanish(v, 0x1_0000_0000);
        vstd::arithmetic::div_mod::lemma_small_mod((v + 0x1_0000_0000) as nat, 0x1_0000_0000);
    }
}

impl RInt {
    /// Parses a decimal string into a 32-bit two's-complement bit pattern.
    ///
    /// The grammar is an optional sign, then digits, then an optional dot
    /// followed by digits; the fractional digits are discarded. A byte
    /// outside the grammar fails with `InvalidDigit`; a magnitude that
    /// leaves the unsigned 32-bit range fails with `Overflow`. A recorded
    /// `'-'` turns the accumulated magnitude into its two's complement.
    ///
    /// e.g.
    /// "5"  -> 0b00000000000000000000000000000101
    /// "-5" -> 0b11111111111111111111111111111011
    pub fn from_str(s: &str) -> (r: Result<Self, ParseError>)
        ensures
            match r {
                Ok(v) => parse_spec(s.spec_bytes()) == Ok::<u32, ParseError>(v.bits),
                Err(e) => parse_spec(s.spec_bytes()) == Err::<u32, ParseError>(e),
            },
    {
        let bytes: &[u8] = s.as_bytes();
        let ghost input: Seq<u8> = bytes@;
        let mut state = State::Start;
        let mut bits: u32 = 0;
        let mut is_negative = false;
        let n: usize = bytes.len();
        let mut i: usize = 0;
        proof {
            assert(input.skip(0) =~= input);
        }
        while i < n
            invariant
                i <= n,
                n == input.len(),
                bytes@ == input,
                input == s.spec_bytes(),
                state == State::Start ==> !is_negative,
                parse_spec(input) == run(input.skip(i as int), state, bits, is_negative),
            decreases n - i,
        {
            let b = bytes[i];
            proof {
                assert(input.skip(i as int)[0] == b);
                assert(input.skip(i as int).drop_first() =~= input.skip(i as int + 1));
            }
            if state == State::Start && (b == 43 || b == 45) {
                state = State::InInteger;
                if b == 45 {
                    is_negative = true;
                }
            } else if (state == State::Start || state == State::InInteger) && 48 <= b && b <= 57 {
                state = State::InInteger;
                let digit = b - 48;
                // Accumulate: ten times the value so far, plus the new digit.
                bits = match bits.checked_mul(10) {
                    Some(m) => m,
                    None => {
                        return Err(ParseError::Overflow);
                    },
                };
                bits = match bits.checked_add(digit as u32) {
                    Some(m) => m,
                    None => {
                        return Err(ParseError::Overflow);
                    },
                };
            } else if state == State::InInteger && b == 46 {
                // A dot: everything after it is the fractional part.
                state = State::InFraction;
            } else if state == State::InFraction && 48 <= b && b <= 57 {
                // A fractional digit: discarded, which truncates the value.
            } else {
                // A byte outside the grammar: a recoverable error.
                return Err(ParseError::InvalidDigit);
            }
            i = i + 1;
        }
        proof {
            assert(input.skip(n as int) =~= Seq::<u8>::empty());
        }
        if is_negative && bits != 0 {
            proof {
                assert(!bits == 0xFFFFFFFFu32 - bits) by (bit_vector);
            }
            bits = !bits + 1;  // two's complement: flip the bits and add one
        }
        Ok(RInt { bits })
    }

    /// Builds the value that stores the given raw bit pattern.
    pub fn from_u32(bits: u32) -> (r: Self)
        ensures
            r.bits == bits,
    {
        RInt { bits }
    }

    /// Renders the stored pattern as a decimal string, with a leading `'-'`
    /// when the most significant bit is set.
    pub fn to_string(&self) -> (r: String)
        ensures
            r@ == chars_of(render_bytes(self.bits)),
    {
        let stored: u32 = self.bits;
        let mut value = String::new();
        if stored >= 0x8000_0000 {
            // The sign bit is set: undo the two's complement to recover the
            // magnitude, and render it behind a minus sign.
            value.append("-");
            proof {
                reveal_strlit("-");
                assert(("-")@ =~= seq![45u8 as char]);
                assert(!stored == 0xFFFFFFFFu32 - stored) by (bit_vector);
            }
            let magnitude = !stored + 1;
            push_decimal(&mut value, magnitude);
            proof {
                crate::decimal::lemma_chars_of_add(
                    seq![45u8],
                    dec_bytes((0x1_0000_0000 - stored) as nat),
                );
                assert(chars_of(seq![45u8]) =~= seq![45u8 as char]);
            }
        } else {
            push_decimal(&mut value, stored);
        }
        value
    }
}

/// Appends one decimal digit to the string.
fn push_digit(s: &mut String, d: u8)
    requires
        d < 10,
    ensures
        final(s)@ == old(s)@ + seq![crate::decimal::digit_byte(d as nat) as char],
{
    proof {
        reveal_strlit("0");
        reveal_strlit("1");
        reveal_strlit("2");
        reveal_strlit("3");
        reveal_strlit("4");
        reveal_strlit("5");
        reveal_strlit("6");
        reveal_strlit("7");
        reveal_strlit("8");
        reveal_strlit("9");
    }
    if d == 0 {
        s.append("0");
        proof {
            assert(("0")@ =~= seq![48u8 as char]);
        }
    } else if d == 1 {
        s.append("1");
        proof {
            assert(("1")@ =~= seq![49u8 as char]);
        }
    } else if d == 2 {
        s.append("2");
        proof {
            assert(("2")@ =~= seq![50u8 as char]);
        }
    } else if d == 3 {
        s.append("3");
        proof {
            assert(("3")@ =~= seq![51u8 as char]);
        }
    } else if d == 4 {
        s.append("4");
        proof {
            assert(("4")@ =~= seq![52u8 as char]);
        }
    } else if d == 5 {
        s.append("5");
        proof {
            assert(("5")@ =~= seq![53u8 as char]);
        }
    } else if d == 6 {
        s.append("6");
        proof {
            assert(("6")@ =~= seq![54u8 as char]);
        }
    } else if d == 7 {
        s.append("7");
        proof {
            assert(("7")@ =~= seq![55u8 as char]);
        }
    } else if d == 8 {
        s.append("8");
        proof {
            assert(("8")@ =~= seq![56u8 as char]);
        }
    } else {
        s.append("9");
        proof {
            assert(("9")@ =~= seq![57u8 as char]);
        }
    }
}

/// Appends the canonical decimal digits of `n`, most significant first.
fn push_decimal(s: &mut String, n: u32)
    ensures
        final(s)@ == old(s)@ + chars_of(dec_bytes(n as nat)),
    decreases n,
{
    if n >= 10 {
        push_decimal(s, n / 10);
        push_digit(s, (n % 10) as u8);
        proof {
            crate::decimal::lemma_chars_of_add(
                dec_bytes((n / 10) as nat),
                seq![crate::decimal::digit_byte((n % 10) as nat)],
            );
            assert(dec_bytes(n as nat) =~= dec_bytes((n / 10) as nat) + seq![
                crate::decimal::digit_byte((n % 10) as nat),
            ]);
        }
    } else {
        push_digit(s, n as u8);
    }
}

} // verus!

