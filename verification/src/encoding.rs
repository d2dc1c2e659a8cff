//! Percent encoding of URL path parts and of canonical query components.
//!
//! The encoder works on bytes. A byte that the relevant literal set admits is
//! copied unchanged; every other byte becomes `%` followed by two uppercase
//! hexadecimal digits. Decoding undoes exactly that, so encoding round-trips.

use vstd::prelude::*;

verus! {

pub const UPPER_A: u8 = 65;

pub const UPPER_Z: u8 = 90;

pub const LOWER_A: u8 = 97;

pub const LOWER_Z: u8 = 122;

pub const DIGIT_0: u8 = 48;

pub const DIGIT_9: u8 = 57;

pub const STAR: u8 = 42;

pub const COMMA: u8 = 44;

pub const DASH: u8 = 45;

pub const DOT: u8 = 46;

pub const UNDERSCORE: u8 = 95;

pub const TILDE: u8 = 126;

pub const PERCENT: u8 = 37;

pub const SLASH: u8 = 47;

/// Which bytes a context leaves literal.
#[derive(Clone, Copy, Debug, PartialEq, Eq, Structural)]
pub enum Literals {
    /// A URL path part.
    UrlPart,
    /// A canonical query key or value.
    QueryComponent,
}

/// Bytes left literal in a URL path part: ASCII alphanumerics and
/// `*`, `,`, `-`, `.`, `_`. Multi-index wildcards (`*`) and comma-separated
/// index lists must survive encoding unchanged.
pub open spec fn is_part_literal(b: u8) -> bool {
    (UPPER_A <= b && b <= UPPER_Z) || (LOWER_A <= b && b <= LOWER_Z) || (DIGIT_0 <= b && b
        <= DIGIT_9) || b == STAR || b == COMMA || b == DASH || b == DOT || b == UNDERSCORE
}

/// Bytes left literal in a canonical query component (the unreserved set):
/// ASCII alphanumerics and `-`, `.`, `_`, `~`.
pub open spec fn is_query_literal(b: u8) -> bool {
    (UPPER_A <= b && b <= UPPER_Z) || (LOWER_A <= b && b <= LOWER_Z) || (DIGIT_0 <= b && b
        <= DIGIT_9) || b == DASH || b == DOT || b == UNDERSCORE || b == TILDE
}

/// The literal set of a context.
pub open spec fn admits(ls: Literals, b: u8) -> bool {
    match ls {
        Literals::UrlPart => is_part_literal(b),
        Literals::QueryComponent => is_query_literal(b),
    }
}

/// The uppercase hexadecimal digit of a value below 16.
pub open spec fn hex_upper(v: u8) -> u8
    recommends
        v < 16,
{
    if v < 10 {
        (DIGIT_0 + v) as u8
    } else {
        (UPPER_A + (v - 10)) as u8
    }
}

/// What one byte encodes to: itself when literal, `%XY` otherwise.
pub open spec fn encode_byte(ls: Literals, b: u8) -> Seq<u8> {
    if admits(ls, b) {
        seq![b]
    } else {
        seq![PERCENT, hex_upper(b / 16), hex_upper(b % 16)]
    }
}

/// Percent encoding of a byte sequence under a context's literal set.
pub open spec fn encode_bytes(ls: Literals, s: Seq<u8>) -> Seq<u8>
    decreases s.len(),
{
    if s.len() == 0 {
        Seq::empty()
    } else {
        encode_byte(ls, s[0]) + encode_bytes(ls, s.drop_first())
    }
}

/// Percent encoding of a URL path part.
pub open spec fn encode_part_bytes(s: Seq<u8>) -> Seq<u8> {
    encode_bytes(Literals::UrlPart, s)
}

/// Percent encoding of a canonical query component.
pub open spec fn encode_query_bytes(s: Seq<u8>) -> Seq<u8> {
    encode_bytes(Literals::QueryComponent, s)
}

/// A byte sequence read as the string characters it prints as.
pub open spec fn ascii_chars(bytes: Seq<u8>) -> Seq<char> {
    bytes.map_values(|b: u8| b as char)
}

/// The value of an uppercase hexadecimal digit byte.
pub open spec fn hex_val(b: u8) -> u8 {
    if DIGIT_0 <= b && b <= DIGIT_9 {
        (b - DIGIT_0) as u8
    } else {
        ((b - UPPER_A) + 10) as u8
    }
}

/// Percent decoding: `%XY` becomes the byte the two digits spell; every other
/// byte is copied.
pub open spec fn decode_bytes(s: Seq<u8>) -> Seq<u8>
    decreases s.len(),
{
    if s.len() == 0 {
        Seq::empty()
    } else if s[0] == PERCENT && s.len() >= 3 {
        seq![(hex_val(s[1]) * 16 + hex_val(s[2])) as u8] + decode_bytes(s.skip(3))
    } else {
        seq![s[0]] + decode_bytes(s.drop_first())
    }
}

proof fn lemma_hex_digit_roundtrip(v: u8)
    requires
        v < 16,
    ensures
        hex_val(hex_upper(v)) == v,
        hex_upper(v) != PERCENT,
        hex_upper(v) < 0x80,
{
}

proof fn lemma_byte_div_mod(b: u8)
    ensures
        b / 16 < 16,
        b % 16 < 16,
        (b / 16) * 16 + (b % 16) == b,
{
    assert(b / 16 < 16 && b % 16 < 16 && (b / 16) * 16 + (b % 16) == b) by (bit_vector);
}

/// No context leaves `%` literal, and every literal byte is ASCII.
proof fn lemma_literals_sane(ls: Literals)
    ensures
        forall|b: u8| #[trigger] admits(ls, b) ==> b != PERCENT && b < 0x80,
{
}

/// Encoding distributes over concatenation.
pub proof fn lemma_encode_app(ls: Literals, a: Seq<u8>, b: Seq<u8>)
    ensures
        encode_bytes(ls, a + b) == encode_bytes(ls, a) + encode_bytes(ls, b),
    decreases a.len(),
{
    if a.len() == 0 {
        assert(a + b =~= b);
        assert(encode_bytes(ls, a) + encode_bytes(ls, b) =~= encode_bytes(ls, b));
    } else {
        assert((a + b).drop_first() =~= a.drop_first() + b);
        lemma_encode_app(ls, a.drop_first(), b);
        assert(encode_bytes(ls, a + b) =~= encode_bytes(ls, a) + encode_bytes(ls, b));
    }
}

/// Adding one byte at the end extends the encoding by that byte's block.
pub proof fn lemma_encode_push(ls: Literals, s: Seq<u8>, b: u8)
    ensures
        encode_bytes(ls, s.push(b)) == encode_bytes(ls, s) + encode_byte(ls, b),
{
    assert(s.push(b) =~= s + seq![b]);
    lemma_encode_app(ls, s, seq![b]);
    assert(seq![b].drop_first() =~= Seq::<u8>::empty());
    assert(encode_bytes(ls, Seq::<u8>::empty()) =~= Seq::<u8>::empty());
    assert(encode_bytes(ls, seq![b]) =~= encode_byte(ls, b) + encode_bytes(
        ls,
        seq![b].drop_first(),
    ));
    assert(encode_bytes(ls, seq![b]) =~= encode_byte(ls, b));
}

/// Every byte of an encoding is ASCII.
pub proof fn lemma_encode_ascii(ls: Literals, s: Seq<u8>)
    ensures
        forall|i: int|
            0 <= i < encode_bytes(ls, s).len() ==> #[trigger] encode_bytes(ls, s)[i] < 0x80,
    decreases s.len(),
{
    lemma_literals_sane(ls);
    if s.len() > 0 {
        let e = encode_bytes(ls, s);
        let e0 = encode_byte(ls, s[0]);
        let rest = encode_bytes(ls, s.drop_first());
        lemma_encode_ascii(ls, s.drop_first());
        lemma_byte_div_mod(s[0]);
        if !admits(ls, s[0]) {
            lemma_hex_digit_roundtrip(s[0] / 16);
            lemma_hex_digit_roundtrip(s[0] % 16);
        }
        assert(e =~= e0 + rest);
        assert forall|i: int| 0 <= i < e.len() implies #[trigger] e[i] < 0x80 by {
            if i < e0.len() {
                assert(e[i] == e0[i]);
            } else {
                assert(e[i] == rest[i - e0.len()]);
            }
        }
    }
}

/// Percent decoding inverts percent encoding: the round trip gives the
/// original bytes back, under every context's literal set.
pub proof fn lemma_decode_encode(ls: Literals, s: Seq<u8>)
    ensures
        decode_bytes(encode_bytes(ls, s)) == s,
    decreases s.len(),
{
    lemma_literals_sane(ls);
    if s.len() == 0 {
        assert(decode_bytes(encode_bytes(ls, s)) =~= s);
    } else {
        let e = encode_bytes(ls, s);
        let rest = encode_bytes(ls, s.drop_first());
        lemma_decode_encode(ls, s.drop_first());
        if admits(ls, s[0]) {
            assert(e =~= seq![s[0]] + rest);
            assert(e[0] != PERCENT);
            assert(e.drop_first() =~= rest);
            assert(decode_bytes(e) =~= seq![s[0]] + s.drop_first());
        } else {
            lemma_byte_div_mod(s[0]);
            lemma_hex_digit_roundtrip(s[0] / 16);
            lemma_hex_digit_roundtrip(s[0] % 16);
            assert(e =~= seq![PERCENT, hex_upper(s[0] / 16), hex_upper(s[0] % 16)] + rest);
            assert(e[0] == PERCENT && e.len() >= 3);
            assert(e.skip(3) =~= rest);
            assert((hex_val(e[1]) * 16 + hex_val(e[2])) as u8 == s[0]);
            assert(decode_bytes(e) =~= seq![s[0]] + s.drop_first());
        }
        assert(seq![s[0]] + s.drop_first() =~= s);
    }
}

/// No literal byte ever appears in escaped form: wherever `%` stands in an
/// encoding, the two digits after it spell a byte outside the literal set.
/// In particular `*`, `,` and `-` never appear percent-encoded in a path part.
pub proof fn lemma_no_literal_escaped(ls: Literals, s: Seq<u8>)
    ensures
        forall|i: int|
            0 <= i < encode_bytes(ls, s).len() && #[trigger] encode_bytes(ls, s)[i] == PERCENT
                ==> i + 2 < encode_bytes(ls, s).len() && !admits(
                ls,
                (hex_val(encode_bytes(ls, s)[i + 1]) * 16 + hex_val(
                    encode_bytes(ls, s)[i + 2],
                )) as u8,
            ),
    decreases s.len(),
{
    lemma_literals_sane(ls);
    if s.len() > 0 {
        let e = encode_bytes(ls, s);
        let e0 = encode_byte(ls, s[0]);
        let rest = encode_bytes(ls, s.drop_first());
        lemma_no_literal_escaped(ls, s.drop_first());
        assert(e =~= e0 + rest);
        lemma_byte_div_mod(s[0]);
        if !admits(ls, s[0]) {
            lemma_hex_digit_roundtrip(s[0] / 16);
            lemma_hex_digit_roundtrip(s[0] % 16);
        }
        assert forall|i: int| 0 <= i < e.len() && #[trigger] e[i] == PERCENT implies i + 2 < e.len()
            && !admits(ls, (hex_val(e[i + 1]) * 16 + hex_val(e[i + 2])) as u8) by {
            if i < e0.len() {
                if admits(ls, s[0]) {
                    assert(e[0] == s[0] && s[0] != PERCENT);
                    assert(false);
                } else {
                    assert(e0.len() == 3);
                    if i == 0 {
                        assert(e[1] == hex_upper(s[0] / 16) && e[2] == hex_upper(s[0] % 16));
                        assert((hex_val(e[1]) * 16 + hex_val(e[2])) as u8 == s[0]);
                    } else {
                        assert(e[i] == hex_upper(s[0] / 16) || e[i] == hex_upper(s[0] % 16));
                        assert(false);
                    }
                }
            } else {
                let j = i - e0.len();
                assert(rest[j] == e[i] && rest[j] == PERCENT);
                assert(rest[j + 1] == e[i + 1] && rest[j + 2] == e[i + 2]);
            }
        }
    }
}

/// The uppercase hexadecimal digit of a value below 16, computed.
pub fn hex_upper_digit(v: u8) -> (r: u8)
    requires
        v < 16,
    ensures
        r == hex_upper(v),
{
    if v < 10 {
        DIGIT_0 + v
    } else {
        UPPER_A + (v - 10)
    }
}

/// Whether a byte stays literal in the given context.
pub fn byte_is_literal(ls: Literals, b: u8) -> (r: bool)
    ensures
        r == admits(ls, b),
{
    let alnum = (UPPER_A <= b && b <= UPPER_Z) || (LOWER_A <= b && b <= LOWER_Z) || (DIGIT_0 <= b
        && b <= DIGIT_9);
    match ls {
        Literals::UrlPart => alnum || b == STAR || b == COMMA || b == DASH || b == DOT || b
            == UNDERSCORE,
        Literals::QueryComponent => alnum || b == DASH || b == DOT || b == UNDERSCORE || b
            == TILDE,
    }
}

/// Appends the percent encoding of `input` under the given context to `out`.
pub fn encode_append(out: &mut Vec<u8>, input: &[u8], ls: Literals)
    ensures
        final(out)@ == old(out)@ + encode_bytes(ls, input@),
{
    let ghost start = out@;
    let mut i: usize = 0;
    proof {
        assert(input@.take(0) =~= Seq::empty());
        assert(out@ =~= start + encode_bytes(ls, input@.take(0)));
    }
    while i < input.len()
        invariant
            i <= input@.len(),
            out@ == start + encode_bytes(ls, input@.take(i as int)),
        decreases input@.len() - i,
    {
        let b = input[i];
        if byte_is_literal(ls, b) {
            out.push(b);
        } else {
            proof {
                lemma_byte_div_mod(b);
            }
            out.push(PERCENT);
            out.push(hex_upper_digit(b / 16));
            out.push(hex_upper_digit(b % 16));
        }
        proof {
            lemma_encode_push(ls, input@.take(i as int), b);
            assert(input@.take(i + 1) =~= input@.take(i as int).push(b));
            assert(out@ =~= start + encode_bytes(ls, input@.take(i + 1)));
        }
        i = i + 1;
    }
    proof {
        assert(input@.take(input@.len() as int) =~= input@);
    }
}

/// Relies on String::from_utf8: ASCII bytes are valid UTF-8 and convert to
/// the string whose characters are those bytes, one for one.
#[verifier::external_body]
pub fn ascii_to_string(bytes: Vec<u8>) -> (s: String)
    requires
        forall|i: int| 0 <= i < bytes@.len() ==> bytes@[i] < 0x80,
    ensures
        s@ == bytes@.map_values(|b: u8| b as char),
{
    String::from_utf8(bytes).unwrap()
}

} // verus!
