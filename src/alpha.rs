//! ASCII letters and their rotation within a 26-letter alphabet.

use vstd::prelude::*;

verus! {

/// `b` is an ASCII capital letter.
pub open spec fn is_upper(b: u8) -> bool {
    65 <= b <= 90
}

/// `b` is an ASCII small letter.
pub open spec fn is_lower(b: u8) -> bool {
    97 <= b <= 122
}

/// `b` is an ASCII letter.
pub open spec fn is_alpha(b: u8) -> bool {
    is_upper(b) || is_lower(b)
}

/// The first letter of the alphabet that `b` belongs to.
pub open spec fn base_of(b: u8) -> int {
    if is_lower(b) {
        97
    } else {
        65
    }
}

/// The letter `b` moved `k` places forward (backward when `k` is negative)
/// within its own case's alphabet, wrapping around; any other byte unchanged.
pub open spec fn rotate(b: u8, k: int) -> u8 {
    if is_alpha(b) {
        (base_of(b) + (b - base_of(b) + k) % 26) as u8
    } else {
        b
    }
}

/// Every byte of `s` rotated by `k`.
pub open spec fn rotate_all(s: Seq<u8>, k: int) -> Seq<u8> {
    Seq::new(s.len(), |i: int| rotate(s[i], k))
}

/// Rotation keeps a byte's class: letters stay letters of the same case.
pub proof fn lemma_rotate_keeps_case(b: u8, k: int)
    ensures
        is_upper(rotate(b, k)) == is_upper(b),
        is_lower(rotate(b, k)) == is_lower(b),
{
}

/// Rotating by `k` and then by `j` is rotating by `k + j`.
pub proof fn lemma_rotate_compose(b: u8, k: int, j: int)
    ensures
        rotate(rotate(b, k), j) == rotate(b, k + j),
{
    if is_alpha(b) {
        let x = b - base_of(b);
        assert(((x + k) % 26 + j) % 26 == (x + k + j) % 26) by (nonlinear_arith);
    }
}

/// A rotation by a multiple of 26 changes nothing.
pub proof fn lemma_rotate_full_turn(b: u8, n: int)
    ensures
        rotate(b, 26 * n) == b,
{
    if is_alpha(b) {
        let x = b - base_of(b);
        assert(0 <= x < 26);
        assert((x + 26 * n) % 26 == x) by (nonlinear_arith)
            requires 0 <= x < 26;
    }
}

/// Rotation depends on `k` only modulo 26.
pub proof fn lemma_rotate_periodic(b: u8, k: int, n: int)
    ensures
        rotate(b, k + 26 * n) == rotate(b, k),
{
    if is_alpha(b) {
        let x = b - base_of(b);
        assert((x + (k + 26 * n)) % 26 == (x + k) % 26) by (nonlinear_arith);
    }
}

/// The character `c` rotated by `k` when it is an ASCII letter, else unchanged.
pub open spec fn rotate_char(c: char, k: int) -> char {
    if (c as u32) < 128 {
        rotate(c as u8, k) as char
    } else {
        c
    }
}

/// A rotation by zero leaves a character unchanged.
pub proof fn lemma_rotate_char_zero(c: char)
    ensures
        rotate_char(c, 0) == c,
{
    if (c as u32) < 128 {
        lemma_rotate_full_turn(c as u8, 0);
    }
}

/// Every character of `s` rotated by `k`.
pub open spec fn rotate_text(s: Seq<char>, k: int) -> Seq<char> {
    Seq::new(s.len(), |i: int| rotate_char(s[i], k))
}

/// Rotates the byte `b` forward by `k` places within its alphabet.
pub fn rotate_byte(b: u8, k: u8) -> (r: u8)
    ensures
        r == rotate(b, k as int),
{
    let lower = 97 <= b && b <= 122;
    let upper = 65 <= b && b <= 90;
    if lower || upper {
        let base: u8 = if lower { 97 } else { 65 };
        let off: u16 = ((b - base) as u16 + k as u16) % 26;
        base + off as u8
    } else {
        b
    }
}

/// Rotates the character `c` forward by `k` places when it is an ASCII letter.
pub fn rotate_ascii_char(c: char, k: u8) -> (r: char)
    ensures
        r == rotate_char(c, k as int),
{
    if (c as u32) < 128 {
        let b = c as u8;
        rotate_byte(b, k) as char
    } else {
        c
    }
}

} // verus!
