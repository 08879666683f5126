//! Character-level ciphers on strings: Caesar and ROT13.

use vstd::prelude::*;
use crate::alpha::{lemma_rotate_compose, lemma_rotate_char_zero, lemma_rotate_periodic, rotate_ascii_char, rotate_char, rotate_text};

verus! {

/// Relies on String::push: the character is appended at the end of the string.
#[verifier::external_body]
pub(crate) fn push_char(s: &mut String, c: char)
    ensures
        final(s)@ == old(s)@.push(c),
{
    s.push(c)
}

/// Every ASCII letter of `text` rotated forward by `k` places within its
/// case's alphabet; all other characters kept.
fn rotate_string(text: &str, k: u8) -> (r: String)
    ensures
        r@ == rotate_text(text@, k as int),
{
    let mut out = String::new();
    for c in it: text.chars()
        invariant
            it.seq() == text@,
            out@ == rotate_text(text@.take(it.index() as int), k as int),
    {
        assert(text@.take(it.index() + 1) =~= text@.take(it.index() as int).push(c));
        let d = rotate_ascii_char(c, k);
        push_char(&mut out, d);
        assert(out@ =~= rotate_text(text@.take(it.index() + 1), k as int));
    }
    assert(text@.take(text@.len() as int) =~= text@);
    out
}

/// Caesar cipher: each ASCII letter moves `shift` places forward within its
/// case's alphabet (wrapping from `z` to `a`); other characters are kept.
pub fn caesar_encrypt(text: &str, shift: u8) -> (r: String)
    ensures
        r@ == rotate_text(text@, shift as int),
{
    rotate_string(text, shift)
}

/// Undoes [`caesar_encrypt`]: each ASCII letter moves `shift` places back.
pub fn caesar_decrypt(text: &str, shift: u8) -> (r: String)
    ensures
        r@ == rotate_text(text@, -(shift as int)),
{
    let back: u8 = 26 - shift % 26;
    let r = rotate_string(text, back);
    proof {
        lemma_rotate_text_periodic(text@, -(shift as int), 1 + shift as int / 26);
        assert(back as int == -(shift as int) + 26 * (1 + shift as int / 26));
    }
    r
}

/// ROT13: each ASCII letter moves 13 places within its alphabet.
pub fn rot13(text: &str) -> (r: String)
    ensures
        r@ == rotate_text(text@, 13),
{
    rotate_string(text, 13)
}

/// A text rotation depends on the shift only modulo 26.
pub proof fn lemma_rotate_text_periodic(s: Seq<char>, k: int, n: int)
    ensures
        rotate_text(s, k + 26 * n) == rotate_text(s, k),
{
    assert forall|i: int| 0 <= i < s.len() implies rotate_char(s[i], k + 26 * n)
        == rotate_char(s[i], k) by {
        lemma_rotate_periodic(s[i] as u8, k, n);
    }
    assert(rotate_text(s, k + 26 * n) =~= rotate_text(s, k));
}

/// Rotating a text by `k` and then by `j` is rotating it by `k + j`.
pub proof fn lemma_rotate_text_compose(s: Seq<char>, k: int, j: int)
    ensures
        rotate_text(rotate_text(s, k), j) == rotate_text(s, k + j),
{
    assert forall|i: int| 0 <= i < s.len() implies rotate_char(rotate_char(s[i], k), j)
        == rotate_char(s[i], k + j) by {
        lemma_rotate_compose(s[i] as u8, k, j);
    }
    assert(rotate_text(rotate_text(s, k), j) =~= rotate_text(s, k + j));
}

/// Decrypting a Caesar ciphertext with the same shift gives back the text.
pub proof fn lemma_caesar_round_trip(s: Seq<char>, shift: u8)
    ensures
        rotate_text(rotate_text(s, shift as int), -(shift as int)) == s,
{
    lemma_rotate_text_compose(s, shift as int, -(shift as int));
    lemma_rotate_text_zero(s);
}

/// A rotation by zero leaves a text unchanged.
pub proof fn lemma_rotate_text_zero(s: Seq<char>)
    ensures
        rotate_text(s, 0) == s,
{
    assert forall|i: int| 0 <= i < s.len() implies rotate_char(s[i], 0) == s[i] by {
        lemma_rotate_char_zero(s[i]);
    }
    assert(rotate_text(s, 0) =~= s);
}

/// ROT13 is its own inverse: applying it twice gives back the text.
pub proof fn lemma_rot13_twice(s: Seq<char>)
    ensures
        rotate_text(rotate_text(s, 13), 13) == s,
{
    lemma_rotate_text_compose(s, 13, 13);
    lemma_rotate_text_periodic(s, 0, 1);
    lemma_rotate_text_zero(s);
}

} // verus!
