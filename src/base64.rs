//! A textbook Base64 codec over the standard alphabet, `=` padded.

use vstd::prelude::*;
use crate::text::push_char;

verus! {

/// The alphabet's character for the 6-bit value `v`:
/// `A`-`Z`, then `a`-`z`, then `0`-`9`, then `+` and `/`.
pub open spec fn sextet_char(v: u8) -> char
    recommends
        v < 64,
{
    if v < 26 {
        ((v + 65) as u8) as char
    } else if v < 52 {
        ((v - 26 + 97) as u8) as char
    } else if v < 62 {
        ((v - 52 + 48) as u8) as char
    } else if v == 62 {
        '+'
    } else {
        '/'
    }
}

/// The 6-bit value of an alphabet character; 0 for any other character.
pub open spec fn sextet_value(c: char) -> u8 {
    if 'A' <= c <= 'Z' {
        (c as u32 - 65) as u8
    } else if 'a' <= c <= 'z' {
        (c as u32 - 97 + 26) as u8
    } else if '0' <= c <= '9' {
        (c as u32 - 48 + 52) as u8
    } else if c == '+' {
        62
    } else if c == '/' {
        63
    } else {
        0
    }
}

/// The 24-bit group formed by three bytes, the first one highest.
pub open spec fn group_word(b0: u8, b1: u8, b2: u8) -> u32 {
    ((b0 as u32) << 16u32) | ((b1 as u32) << 8u32) | (b2 as u32)
}

/// The four characters that encode a group of one to three bytes; missing
/// bytes count as zero, and each missing byte turns one final character into `=`.
pub open spec fn encode_group(g: Seq<u8>) -> Seq<char>
    recommends
        1 <= g.len() <= 3,
{
    let w = group_word(
        g[0],
        if g.len() > 1 {
            g[1]
        } else {
            0
        },
        if g.len() > 2 {
            g[2]
        } else {
            0
        },
    );
    seq![
        sextet_char(((w >> 18u32) & 63u32) as u8),
        sextet_char(((w >> 12u32) & 63u32) as u8),
        if g.len() > 1 { sextet_char(((w >> 6u32) & 63u32) as u8) } else { '=' },
        if g.len() > 2 { sextet_char((w & 63u32) as u8) } else { '=' },
    ]
}

/// Base64 encoding of `d`: its groups of three bytes, the last one possibly
/// shorter, each encoded in turn.
pub open spec fn base64_encoding(d: Seq<u8>) -> Seq<char>
    decreases d.len(),
{
    if d.len() == 0 {
        seq![]
    } else if d.len() <= 3 {
        encode_group(d)
    } else {
        encode_group(d.take(3)) + base64_encoding(d.skip(3))
    }
}

/// The bytes that a group of two to four characters stands for: one byte
/// per character after the first; characters outside the alphabet count as 0.
pub open spec fn decode_group(c: Seq<char>) -> Seq<u8>
    recommends
        2 <= c.len() <= 4,
{
    let v2: u32 = if c.len() > 2 {
        sextet_value(c[2]) as u32
    } else {
        0
    };
    let v3: u32 = if c.len() > 3 {
        sextet_value(c[3]) as u32
    } else {
        0
    };
    let w: u32 = ((sextet_value(c[0]) as u32) << 18u32) | ((sextet_value(c[1]) as u32) << 12u32)
        | (v2 << 6u32) | v3;
    seq![(w >> 16u32) as u8] + (if c.len() > 2 {
        seq![(w >> 8u32) as u8]
    } else {
        seq![]
    }) + (if c.len() > 3 {
        seq![w as u8]
    } else {
        seq![]
    })
}

/// The bytes that the characters `c` (padding already removed) stand for:
/// groups of four decoded in turn; a last group of a single character is
/// ignored.
pub open spec fn decode_chars(c: Seq<char>) -> Seq<u8>
    decreases c.len(),
{
    if c.len() < 2 {
        seq![]
    } else if c.len() <= 4 {
        decode_group(c)
    } else {
        decode_group(c.take(4)) + decode_chars(c.skip(4))
    }
}

/// `s` with every `=` removed, the other characters kept in order.
pub open spec fn unpadded(s: Seq<char>) -> Seq<char>
    decreases s.len(),
{
    if s.len() == 0 {
        s
    } else if s.last() == '=' {
        unpadded(s.drop_last())
    } else {
        unpadded(s.drop_last()).push(s.last())
    }
}

/// What decoding the text `s` gives: its characters other than `=`, decoded.
pub open spec fn base64_decoding(s: Seq<char>) -> Seq<u8> {
    decode_chars(unpadded(s))
}

/// Each alphabet character maps back to its value, and none is `=`.
proof fn lemma_sextet_inverse(v: u8)
    requires
        v < 64,
    ensures
        sextet_value(sextet_char(v)) == v,
        sextet_char(v) != '=',
{
}

/// Removing `=` from a concatenation removes it from each part.
proof fn lemma_unpadded_concat(a: Seq<char>, b: Seq<char>)
    ensures
        unpadded(a + b) == unpadded(a) + unpadded(b),
    decreases b.len(),
{
    if b.len() == 0 {
        assert(a + b =~= a);
        assert(unpadded(a) + unpadded(b) =~= unpadded(a));
    } else {
        assert((a + b).drop_last() =~= a + b.drop_last());
        lemma_unpadded_concat(a, b.drop_last());
        assert(unpadded(a) + unpadded(b) =~= if b.last() == '=' {
            unpadded(a) + unpadded(b.drop_last())
        } else {
            (unpadded(a) + unpadded(b.drop_last())).push(b.last())
        });
    }
}

/// A text without `=` is left as it is.
proof fn lemma_unpadded_none(s: Seq<char>)
    requires
        forall|i: int| 0 <= i < s.len() ==> s[i] != '=',
    ensures
        unpadded(s) == s,
    decreases s.len(),
{
    if s.len() > 0 {
        lemma_unpadded_none(s.drop_last());
        assert(s.drop_last().push(s.last()) =~= s);
    }
}

/// Splitting the group word into four 6-bit values and joining them again
/// gives back the three bytes; zero bytes at the end give zero values.
proof fn lemma_group_bits(b0: u8, b1: u8, b2: u8)
    ensures
        ({
            let w = group_word(b0, b1, b2);
            let s0 = (w >> 18u32) & 63u32;
            let s1 = (w >> 12u32) & 63u32;
            let s2 = (w >> 6u32) & 63u32;
            let s3 = w & 63u32;
            let r = (s0 << 18u32) | (s1 << 12u32) | (s2 << 6u32) | s3;
            &&& s0 < 64 && s1 < 64 && s2 < 64 && s3 < 64
            &&& (r >> 16u32) as u8 == b0
            &&& (r >> 8u32) as u8 == b1
            &&& r as u8 == b2
            &&& b2 == 0 ==> s3 == 0
            &&& b1 == 0 && b2 == 0 ==> s2 == 0
        }),
{
    let w = group_word(b0, b1, b2);
    assert(w == ((b0 as u32) << 16u32) | ((b1 as u32) << 8u32) | (b2 as u32));
    let s0 = (w >> 18u32) & 63u32;
    let s1 = (w >> 12u32) & 63u32;
    let s2 = (w >> 6u32) & 63u32;
    let s3 = w & 63u32;
    let r = (s0 << 18u32) | (s1 << 12u32) | (s2 << 6u32) | s3;
    assert(s0 < 64 && s1 < 64 && s2 < 64 && s3 < 64 && (r >> 16u32) as u8 == b0 && (r
        >> 8u32) as u8 == b1 && r as u8 == b2 && (b2 == 0 ==> s3 == 0) && (b1 == 0 && b2 == 0
        ==> s2 == 0)) by (bit_vector)
        requires
            w == ((b0 as u32) << 16u32) | ((b1 as u32) << 8u32) | (b2 as u32),
            s0 == (w >> 18u32) & 63u32,
            s1 == (w >> 12u32) & 63u32,
            s2 == (w >> 6u32) & 63u32,
            s3 == w & 63u32,
            r == (s0 << 18u32) | (s1 << 12u32) | (s2 << 6u32) | s3,
    ;
}

/// A run of `=` is removed entirely.
proof fn lemma_unpadded_padding(s: Seq<char>)
    requires
        forall|i: int| 0 <= i < s.len() ==> s[i] == '=',
    ensures
        unpadded(s) == Seq::<char>::empty(),
    decreases s.len(),
{
    if s.len() > 0 {
        lemma_unpadded_padding(s.drop_last());
    }
}

/// A group of one to three bytes encodes to one more character than it has
/// bytes, then padding; those characters decode back to the group.
proof fn lemma_group_round_trip(g: Seq<u8>)
    requires
        1 <= g.len() <= 3,
    ensures
        unpadded(encode_group(g)) == encode_group(g).take(g.len() as int + 1),
        decode_group(encode_group(g).take(g.len() as int + 1)) == g,
{
    let e = encode_group(g);
    let k = g.len() + 1;
    let b0 = g[0];
    let b1: u8 = if g.len() > 1 {
        g[1]
    } else {
        0
    };
    let b2: u8 = if g.len() > 2 {
        g[2]
    } else {
        0
    };
    let w = group_word(b0, b1, b2);
    lemma_group_bits(b0, b1, b2);
    let s0 = (w >> 18u32) & 63u32;
    let s1 = (w >> 12u32) & 63u32;
    let s2 = (w >> 6u32) & 63u32;
    let s3 = w & 63u32;
    lemma_sextet_inverse(s0 as u8);
    lemma_sextet_inverse(s1 as u8);
    lemma_sextet_inverse(s2 as u8);
    lemma_sextet_inverse(s3 as u8);
    let p = e.take(k as int);
    let pads = e.skip(k as int);
    assert(e =~= p + pads);
    lemma_unpadded_concat(p, pads);
    lemma_unpadded_none(p);
    lemma_unpadded_padding(pads);
    assert(p + Seq::<char>::empty() =~= p);
    assert(decode_group(p) =~= g);
}

/// The characters of an encoding other than `=` decode back to the bytes,
/// and there are at least two of them when there is at least one byte.
proof fn lemma_encoding_chars(d: Seq<u8>)
    ensures
        decode_chars(unpadded(base64_encoding(d))) == d,
        d.len() > 0 ==> unpadded(base64_encoding(d)).len() >= 2,
    decreases d.len(),
{
    if d.len() == 0 {
        assert(decode_chars(unpadded(base64_encoding(d))) =~= d);
    } else if d.len() <= 3 {
        lemma_group_round_trip(d);
    } else {
        let g = d.take(3);
        let rest = d.skip(3);
        lemma_group_round_trip(g);
        lemma_encoding_chars(rest);
        let e0 = encode_group(g);
        let u = unpadded(base64_encoding(rest));
        lemma_unpadded_concat(e0, base64_encoding(rest));
        assert(e0.take(4) =~= e0);
        let c = e0 + u;
        assert(c.take(4) =~= e0);
        assert(c.skip(4) =~= u);
        assert(g + rest =~= d);
    }
}

/// Decoding the Base64 encoding of any bytes gives back those bytes.
pub proof fn lemma_base64_round_trip(d: Seq<u8>)
    ensures
        base64_decoding(base64_encoding(d)) == d,
{
    lemma_encoding_chars(d);
}

/// The alphabet's character for `v`, as [`sextet_char`] gives it.
fn sextet_to_char(v: u8) -> (r: char)
    requires
        v < 64,
    ensures
        r == sextet_char(v),
{
    if v < 26 {
        (v + 65) as char
    } else if v < 52 {
        (v - 26 + 97) as char
    } else if v < 62 {
        (v - 52 + 48) as char
    } else if v == 62 {
        '+'
    } else {
        '/'
    }
}

/// The low six bits of `x`.
fn low_sextet(x: u32) -> (r: u8)
    ensures
        r == (x & 63u32) as u8,
        r < 64,
{
    proof {
        assert(x & 63u32 < 64u32) by (bit_vector);
    }
    (x & 63u32) as u8
}

/// The 6-bit value of `c`, as [`sextet_value`] gives it.
fn char_to_sextet(c: char) -> (r: u8)
    ensures
        r == sextet_value(c),
        r < 64,
{
    if 'A' <= c && c <= 'Z' {
        (c as u32 - 65) as u8
    } else if 'a' <= c && c <= 'z' {
        (c as u32 - 97 + 26) as u8
    } else if '0' <= c && c <= '9' {
        (c as u32 - 48 + 52) as u8
    } else if c == '+' {
        62
    } else if c == '/' {
        63
    } else {
        0
    }
}

/// Encodes `data` in Base64, padding the last group with `=`.
pub fn simple_base64_encode(data: &[u8]) -> (r: String)
    ensures
        r@ == base64_encoding(data@),
{
    let mut result = String::new();
    let n = data.len();
    let mut i: usize = 0;
    assert(data@.skip(0) =~= data@);
    assert(result@ + base64_encoding(data@) =~= base64_encoding(data@));
    while i < n
        invariant
            n == data@.len(),
            i <= n,
            result@ + base64_encoding(data@.skip(i as int)) == base64_encoding(data@),
        decreases n - i,
    {
        let rest = n - i;
        let b0 = data[i];
        let b1: u8 = if rest > 1 { data[i + 1] } else { 0 };
        let b2: u8 = if rest > 2 { data[i + 2] } else { 0 };
        let w: u32 = ((b0 as u32) << 16u32) | ((b1 as u32) << 8u32) | (b2 as u32);
        let ghost before = result@;
        let ghost tail = data@.skip(i as int);
        let ghost g = if rest <= 3 { tail } else { tail.take(3) };
        push_char(&mut result, sextet_to_char(low_sextet(w >> 18u32)));
        push_char(&mut result, sextet_to_char(low_sextet(w >> 12u32)));
        if rest > 1 {
            push_char(&mut result, sextet_to_char(low_sextet(w >> 6u32)));
        } else {
            push_char(&mut result, '=');
        }
        if rest > 2 {
            push_char(&mut result, sextet_to_char(low_sextet(w)));
        } else {
            push_char(&mut result, '=');
        }
        assert(result@ =~= before + encode_group(g));
        if rest <= 3 {
            i = n;
            assert(data@.skip(n as int) =~= Seq::<u8>::empty());
        } else {
            i = i + 3;
            assert(tail.skip(3) =~= data@.skip(i as int));
        }
    }
    assert(data@.skip(n as int) =~= Seq::<u8>::empty());
    assert(result@ + Seq::<char>::empty() =~= result@);
    result
}

/// Decodes Base64 text: `=` is skipped wherever it stands, characters outside
/// the alphabet count as 0, and a last group of a single character is ignored.
pub fn simple_base64_decode(encoded: &str) -> (r: Vec<u8>)
    ensures
        r@ == base64_decoding(encoded@),
{
    let mut chars: Vec<char> = Vec::new();
    for c in it: encoded.chars()
        invariant
            it.seq() == encoded@,
            chars@ == unpadded(encoded@.take(it.index() as int)),
    {
        let ghost prefix = encoded@.take(it.index() as int);
        proof {
            let next = encoded@.take(it.index() + 1);
            assert(next.drop_last() =~= prefix);
        }
        if c != '=' {
            chars.push(c);
        }
    }
    assert(encoded@.take(encoded@.len() as int) =~= encoded@);
    let mut result: Vec<u8> = Vec::new();
    let n = chars.len();
    let mut i: usize = 0;
    assert(chars@.skip(0) =~= chars@);
    assert(result@ + decode_chars(chars@) =~= decode_chars(chars@));
    while n - i >= 2
        invariant
            n == chars@.len(),
            i <= n,
            result@ + decode_chars(chars@.skip(i as int)) == decode_chars(chars@),
        decreases n - i,
    {
        let rest = n - i;
        let v2: u32 = if rest > 2 { char_to_sextet(chars[i + 2]) as u32 } else { 0 };
        let v3: u32 = if rest > 3 { char_to_sextet(chars[i + 3]) as u32 } else { 0 };
        let combined: u32 = ((char_to_sextet(chars[i]) as u32) << 18u32) | ((char_to_sextet(
            chars[i + 1],
        ) as u32) << 12u32) | (v2 << 6u32) | v3;
        let ghost before = result@;
        let ghost tail = chars@.skip(i as int);
        let ghost g = if rest <= 4 { tail } else { tail.take(4) };
        result.push(#[verifier::truncate] ((combined >> 16u32) as u8));
        if rest > 2 {
            result.push(#[verifier::truncate] ((combined >> 8u32) as u8));
        }
        if rest > 3 {
            result.push(#[verifier::truncate] (combined as u8));
        }
        assert(result@ =~= before + decode_group(g));
        if rest <= 4 {
            i = n;
            assert(chars@.skip(n as int) =~= Seq::<char>::empty());
        } else {
            i = i + 4;
            assert(tail.skip(4) =~= chars@.skip(i as int));
        }
    }
    assert(result@ + Seq::<u8>::empty() =~= result@);
    result
}

} // verus!
