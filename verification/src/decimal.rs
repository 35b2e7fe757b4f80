//! Decimal digit strings as sequences of ASCII bytes.
//!
//! The spec functions here give the numeric value of a digit string and the
//! canonical digit string of a number; the lemmas show that the two are
//! inverse to each other on canonical strings (no leading zero).

use vstd::prelude::*;

verus! {

/// An ASCII decimal digit byte, `'0'` through `'9'`.
pub open spec fn is_digit(b: u8) -> bool {
    48 <= b <= 57
}

/// The numeric value of a digit byte.
pub open spec fn digit_val(b: u8) -> nat {
    (b - 48) as nat
}

/// The digit byte for a value below ten.
pub open spec fn digit_byte(d: nat) -> u8 {
    (48 + d) as u8
}

/// Every byte of `s` is a decimal digit.
pub open spec fn all_digits(s: Seq<u8>) -> bool {
    forall|i: int| 0 <= i < s.len() ==> is_digit(#[trigger] s[i])
}

/// The number a digit string denotes, most significant digit first.
/// The empty string denotes zero.
pub open spec fn digits_val(s: Seq<u8>) -> nat
    decreases s.len(),
{
    if s.len() == 0 {
        0
    } else {
        digits_val(s.drop_last()) * 10 + digit_val(s.last())
    }
}

/// The canonical decimal digit string of `n`: nonempty, and without a
/// leading zero unless it is `"0"` itself.
pub open spec fn dec_bytes(n: nat) -> Seq<u8>
    decreases n,
{
    if n < 10 {
        seq![digit_byte(n)]
    } else {
        dec_bytes(n / 10).push(digit_byte(n % 10))
    }
}

/// The power of ten with `k` zeros.
pub open spec fn pow10(k: nat) -> nat
    decreases k,
{
    if k == 0 {
        1
    } else {
        10 * pow10((k - 1) as nat)
    }
}

/// Powers of ten are positive.
pub proof fn lemma_pow10_pos(k: nat)
    ensures
        pow10(k) >= 1,
    decreases k,
{
    if k > 0 {
        lemma_pow10_pos((k - 1) as nat);
    }
}

/// Splitting the leading digit off a digit string: it is worth a power of
/// ten with one zero for each remaining digit.
pub proof fn lemma_digits_val_front(s: Seq<u8>)
    requires
        s.len() >= 1,
    ensures
        digits_val(s) == digit_val(s[0]) * pow10((s.len() - 1) as nat) + digits_val(
            s.drop_first(),
        ),
    decreases s.len(),
{
    if s.len() == 1 {
        assert(s.drop_last() =~= Seq::<u8>::empty());
        assert(s.drop_first() =~= Seq::<u8>::empty());
        assert(digits_val(Seq::<u8>::empty()) == 0);
        assert(s.last() == s[0]);
        assert(digits_val(s) == digit_val(s[0]));
        assert(pow10(0) == 1);
        assert(digit_val(s[0]) * 1 == digit_val(s[0])) by (nonlinear_arith);
    } else {
        let t = s.drop_last();
        let k = (s.len() - 2) as nat;
        lemma_digits_val_front(t);
        assert(t[0] == s[0]);
        assert(t.drop_first() =~= s.drop_first().drop_last());
        assert(s.drop_first().last() == s.last());
        assert(digits_val(s.drop_first()) == digits_val(s.drop_first().drop_last()) * 10
            + digit_val(s.drop_first().last()));
        assert(digits_val(s) == digits_val(t) * 10 + digit_val(s.last()));
        assert(digits_val(t) * 10 == digit_val(s[0]) * (10 * pow10(k)) + digits_val(
            t.drop_first(),
        ) * 10) by (nonlinear_arith)
            requires
                digits_val(t) == digit_val(s[0]) * pow10(k) + digits_val(t.drop_first()),
        ;
        assert(pow10((s.len() - 1) as nat) == 10 * pow10(k));
    }
}

/// The characters of a sequence of ASCII bytes.
pub open spec fn chars_of(s: Seq<u8>) -> Seq<char> {
    s.map(|i: int, b: u8| b as char)
}

/// `chars_of` distributes over concatenation.
pub proof fn lemma_chars_of_add(a: Seq<u8>, b: Seq<u8>)
    ensures
        chars_of(a + b) == chars_of(a) + chars_of(b),
{
    assert(chars_of(a + b) =~= chars_of(a) + chars_of(b));
}

/// The canonical digit string is nonempty, made of digits, and has no
/// leading zero except for zero itself.
pub proof fn lemma_dec_bytes_wf(n: nat)
    ensures
        dec_bytes(n).len() >= 1,
        all_digits(dec_bytes(n)),
        n >= 1 ==> dec_bytes(n)[0] != 48,
    decreases n,
{
    if n >= 10 {
        assert(n / 10 >= 1) by (nonlinear_arith)
            requires
                n >= 10,
        ;
        lemma_dec_bytes_wf(n / 10);
    }
}

/// Reading back the canonical digit string of `n` yields `n`.
pub proof fn lemma_digits_val_dec_bytes(n: nat)
    ensures
        digits_val(dec_bytes(n)) == n,
    decreases n,
{
    if n < 10 {
        assert(seq![digit_byte(n)].drop_last() =~= Seq::<u8>::empty());
        assert(digits_val(Seq::<u8>::empty()) == 0);
    } else {
        assert(n / 10 < n) by (nonlinear_arith)
            requires
                n >= 10,
        ;
        lemma_digits_val_dec_bytes(n / 10);
        lemma_dec_bytes_wf(n / 10);
        assert(dec_bytes(n) == dec_bytes(n / 10).push(digit_byte(n % 10)));
        assert(dec_bytes(n).drop_last() =~= dec_bytes(n / 10));
        assert(dec_bytes(n).last() == digit_byte(n % 10));
        assert(digit_val(digit_byte(n % 10)) == n % 10);
        assert(digits_val(dec_bytes(n)) == digits_val(dec_bytes(n / 10)) * 10 + digit_val(
            dec_bytes(n).last(),
        ));
        vstd::arithmetic::div_mod::lemma_fundamental_div_mod(n as int, 10);
    }
}

/// A digit string that does not start with `'0'` denotes a positive number.
pub proof fn lemma_digits_val_pos(s: Seq<u8>)
    requires
        all_digits(s),
        s.len() >= 1,
        s[0] != 48,
    ensures
        digits_val(s) >= 1,
    decreases s.len(),
{
    if s.len() > 1 {
        lemma_digits_val_pos(s.drop_last());
    }
}

/// On canonical digit strings, `dec_bytes` inverts `digits_val`.
pub proof fn lemma_dec_bytes_of_digits(s: Seq<u8>)
    requires
        all_digits(s),
        s.len() >= 1,
        s[0] != 48 || s.len() == 1,
    ensures
        dec_bytes(digits_val(s)) == s,
    decreases s.len(),
{
    if s.len() == 1 {
        assert(is_digit(s[0]));
        assert(s.drop_last() =~= Seq::<u8>::empty());
        assert(digits_val(Seq::<u8>::empty()) == 0);
        assert(s.last() == s[0]);
        assert(digits_val(s) == digit_val(s[0]));
        assert(digit_byte(digit_val(s[0])) == s[0]);
        assert(dec_bytes(digits_val(s)) =~= s);
    } else {
        let t = s.drop_last();
        let d = digit_val(s.last());
        lemma_dec_bytes_of_digits(t);
        lemma_digits_val_pos(t);
        let m = digits_val(s);
        assert(m == digits_val(t) * 10 + d);
        assert(m >= 10) by (nonlinear_arith)
            requires
                m == digits_val(t) * 10 + d,
                digits_val(t) >= 1,
        ;
        assert(m / 10 == digits_val(t) && m % 10 == d) by (nonlinear_arith)
            requires
                m == digits_val(t) * 10 + d,
                d < 10,
        ;
        assert(is_digit(s.last()));
        assert(digit_byte(d) == s.last());
        assert(dec_bytes(m) == dec_bytes(digits_val(t)).push(digit_byte(d)));
        assert(dec_bytes(m) =~= s);
    }
}

} // verus!
