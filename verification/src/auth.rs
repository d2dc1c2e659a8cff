//! Request authentication: none, basic credentials, or canonical-request
//! signing.
//!
//! The signing variant follows the standard scheme: a canonical request is
//! built from the method, the canonical URI, the query sorted by key, the
//! lower-cased and sorted headers with trimmed values, and a hash of the
//! body; a string to sign scopes it to date, region and service; the signing
//! key is derived from the secret through a fixed HMAC chain
//! (date, region, service, then the terminal label); and the signature is
//! emitted in an `Authorization` header beside the signed-headers list and a
//! content hash header. The hash and HMAC primitives are outside calls whose
//! results are named; everything assembled around them is verified.

use crate::TransportError;
use crate::encoding::Literals;
use crate::encoding::ascii_chars;
use crate::encoding::ascii_to_string;
use crate::encoding::encode_append;
use crate::encoding::encode_query_bytes;
use crate::encoding::lemma_encode_ascii;
use crate::parts::append_bytes;
use base64::Engine;
use hmac::Mac;
use sha2::Digest;
use vstd::multiset::Multiset;
use vstd::prelude::*;
use vstd::string::StringSliceAdditionalSpecFns;

verus! {

pub const AMP: u8 = 38;

pub const EQUALS: u8 = 61;

pub const COLON: u8 = 58;

pub const SEMICOLON: u8 = 59;

pub const LINE_FEED: u8 = 10;

pub const SPACE: u8 = 32;

pub const UPPER_A_B: u8 = 65;

pub const UPPER_Z_B: u8 = 90;

// ---------------------------------------------------------------------------
// Named results of the outside crypto calls
// ---------------------------------------------------------------------------

pub uninterp spec fn sha256_of(data: Seq<u8>) -> Seq<u8>;

pub uninterp spec fn hmac_sha256_of(key: Seq<u8>, msg: Seq<u8>) -> Seq<u8>;

pub uninterp spec fn base64_of(data: Seq<u8>) -> Seq<char>;

/// Relies on sha2::Sha256: the digest is 32 bytes and depends on the input
/// bytes alone.
#[verifier::external_body]
fn sha256(data: &[u8]) -> (r: Vec<u8>)
    ensures
        r@ == sha256_of(data@),
        r@.len() == 32,
{
    sha2::Sha256::digest(data).to_vec()
}

/// Relies on hmac::Hmac over sha2::Sha256: the tag is 32 bytes and depends on
/// key and message bytes alone; a key of any length is accepted
/// (new_from_slice for an HMAC never fails).
#[verifier::external_body]
fn hmac_sha256(key: &[u8], msg: &[u8]) -> (r: Vec<u8>)
    ensures
        r@ == hmac_sha256_of(key@, msg@),
        r@.len() == 32,
{
    let mut mac = <hmac::Hmac<sha2::Sha256> as Mac>::new_from_slice(key).unwrap();
    mac.update(msg);
    mac.finalize().into_bytes().to_vec()
}

/// Relies on base64's standard-alphabet engine: the encoding depends on the
/// input bytes alone.
#[verifier::external_body]
fn base64_encode(data: &[u8]) -> (r: String)
    ensures
        r@ == base64_of(data@),
{
    base64::engine::general_purpose::STANDARD.encode(data)
}

// ---------------------------------------------------------------------------
// Lowercase hexadecimal rendering of digests
// ---------------------------------------------------------------------------

/// The lowercase hexadecimal digit of a value below 16.
pub open spec fn hex_lower(v: u8) -> u8
    recommends
        v < 16,
{
    if v < 10 {
        (48 + v) as u8
    } else {
        (97 + (v - 10)) as u8
    }
}

/// Two lowercase hexadecimal digits for every byte, in order.
pub open spec fn hex_lower_bytes(s: Seq<u8>) -> Seq<u8>
    decreases s.len(),
{
    if s.len() == 0 {
        Seq::empty()
    } else {
        seq![hex_lower(s[0] / 16), hex_lower(s[0] % 16)] + hex_lower_bytes(s.drop_first())
    }
}

proof fn lemma_hex_lower_push(s: Seq<u8>, b: u8)
    ensures
        hex_lower_bytes(s.push(b)) == hex_lower_bytes(s) + seq![
            hex_lower(b / 16),
            hex_lower(b % 16),
        ],
    decreases s.len(),
{
    let whole = s.push(b);
    if s.len() == 0 {
        assert(whole.drop_first() =~= Seq::<u8>::empty());
        assert(hex_lower_bytes(Seq::<u8>::empty()) =~= Seq::<u8>::empty());
        assert(whole[0] == b);
        assert(hex_lower_bytes(whole) =~= seq![hex_lower(b / 16), hex_lower(b % 16)]
            + hex_lower_bytes(whole.drop_first()));
        assert(hex_lower_bytes(whole) =~= hex_lower_bytes(s) + seq![
            hex_lower(b / 16),
            hex_lower(b % 16),
        ]);
    } else {
        assert(whole.drop_first() =~= s.drop_first().push(b));
        lemma_hex_lower_push(s.drop_first(), b);
        assert(hex_lower_bytes(whole) =~= hex_lower_bytes(s) + seq![
            hex_lower(b / 16),
            hex_lower(b % 16),
        ]);
    }
}

/// Every byte of a lowercase hexadecimal rendering is ASCII.
pub proof fn lemma_hex_lower_ascii(s: Seq<u8>)
    ensures
        forall|i: int|
            0 <= i < hex_lower_bytes(s).len() ==> #[trigger] hex_lower_bytes(s)[i] < 0x80,
    decreases s.len(),
{
    if s.len() > 0 {
        let e = hex_lower_bytes(s);
        let e0 = seq![hex_lower(s[0] / 16), hex_lower(s[0] % 16)];
        let rest = hex_lower_bytes(s.drop_first());
        lemma_hex_lower_ascii(s.drop_first());
        let b0 = s[0];
        assert(b0 / 16 < 16 && b0 % 16 < 16) by (bit_vector);
        assert(e =~= e0 + rest);
        assert forall|i: int| 0 <= i < e.len() implies #[trigger] e[i] < 0x80 by {
            if i < 2 {
                assert(e[i] == e0[i]);
            } else {
                assert(e[i] == rest[i - 2]);
            }
        }
    }
}

/// Appends the lowercase hexadecimal rendering of `data` to `out`.
pub fn hex_lower_append(out: &mut Vec<u8>, data: &[u8])
    ensures
        final(out)@ == old(out)@ + hex_lower_bytes(data@),
{
    let mut i: usize = 0;
    proof {
        assert(data@.take(0) =~= Seq::empty());
        assert(out@ =~= old(out)@ + hex_lower_bytes(data@.take(0)));
    }
    while i < data.len()
        invariant
            i <= data@.len(),
            out@ == old(out)@ + hex_lower_bytes(data@.take(i as int)),
        decreases data@.len() - i,
    {
        let b = data[i];
        proof {
            assert(b / 16 < 16 && b % 16 < 16) by (bit_vector);
        }
        let hi = b / 16;
        let lo = b % 16;
        out.push(if hi < 10 {
            48 + hi
        } else {
            97 + (hi - 10)
        });
        out.push(if lo < 10 {
            48 + lo
        } else {
            97 + (lo - 10)
        });
        proof {
            lemma_hex_lower_push(data@.take(i as int), b);
            assert(data@.take(i + 1) =~= data@.take(i as int).push(b));
            assert(out@ =~= old(out)@ + hex_lower_bytes(data@.take(i + 1)));
        }
        i = i + 1;
    }
    proof {
        assert(data@.take(data@.len() as int) =~= data@);
    }
}

// ---------------------------------------------------------------------------
// Lexicographic order on byte strings, and sorting pairs by key
// ---------------------------------------------------------------------------

/// Lexicographic order on byte strings.
pub open spec fn lex_le(a: Seq<u8>, b: Seq<u8>) -> bool
    decreases a.len(),
{
    if a.len() == 0 {
        true
    } else if b.len() == 0 {
        false
    } else if a[0] < b[0] {
        true
    } else if a[0] > b[0] {
        false
    } else {
        lex_le(a.drop_first(), b.drop_first())
    }
}

proof fn lemma_lex_refl(a: Seq<u8>)
    ensures
        lex_le(a, a),
    decreases a.len(),
{
    if a.len() > 0 {
        lemma_lex_refl(a.drop_first());
    }
}

proof fn lemma_lex_total(a: Seq<u8>, b: Seq<u8>)
    ensures
        lex_le(a, b) || lex_le(b, a),
    decreases a.len(),
{
    if a.len() > 0 && b.len() > 0 && a[0] == b[0] {
        lemma_lex_total(a.drop_first(), b.drop_first());
    }
}

proof fn lemma_lex_trans(a: Seq<u8>, b: Seq<u8>, c: Seq<u8>)
    requires
        lex_le(a, b),
        lex_le(b, c),
    ensures
        lex_le(a, c),
    decreases a.len(),
{
    if a.len() > 0 && b.len() > 0 && c.len() > 0 && a[0] == b[0] && b[0] == c[0] {
        lemma_lex_trans(a.drop_first(), b.drop_first(), c.drop_first());
    }
}

proof fn lemma_lex_skip(a: Seq<u8>, b: Seq<u8>, i: int)
    requires
        0 <= i <= a.len(),
        i <= b.len(),
        forall|m: int| 0 <= m < i ==> a[m] == b[m],
    ensures
        lex_le(a, b) == lex_le(a.skip(i), b.skip(i)),
    decreases i,
{
    if i > 0 {
        assert(lex_le(a, b) == lex_le(a.drop_first(), b.drop_first()));
        assert(a.drop_first().skip(i - 1) =~= a.skip(i));
        assert(b.drop_first().skip(i - 1) =~= b.skip(i));
        assert(forall|m: int| 0 <= m < i - 1 ==> a.drop_first()[m] == b.drop_first()[m]);
        lemma_lex_skip(a.drop_first(), b.drop_first(), i - 1);
    } else {
        assert(a.skip(0) =~= a);
        assert(b.skip(0) =~= b);
    }
}

/// Lexicographic comparison of byte strings, computed.
pub fn lex_le_bytes(a: &[u8], b: &[u8]) -> (r: bool)
    ensures
        r == lex_le(a@, b@),
{
    let mut i: usize = 0;
    while i < a.len() && i < b.len()
        invariant
            i <= a@.len(),
            i <= b@.len(),
            forall|m: int| 0 <= m < i ==> a@[m] == b@[m],
        decreases a@.len() - i,
    {
        if a[i] < b[i] {
            proof {
                lemma_lex_skip(a@, b@, i as int);
            }
            return true;
        }
        if a[i] > b[i] {
            proof {
                lemma_lex_skip(a@, b@, i as int);
            }
            return false;
        }
        i = i + 1;
    }
    proof {
        lemma_lex_skip(a@, b@, i as int);
    }
    a.len() <= b.len()
}

/// The UTF-8 bytes of a string value.
pub open spec fn string_bytes(s: String) -> Seq<u8> {
    vstd::utf8::encode_utf8(s@)
}

/// ASCII lowercasing of a byte string.
pub open spec fn lower_bytes(s: Seq<u8>) -> Seq<u8> {
    s.map_values(
        |b: u8|
            if UPPER_A_B <= b && b <= UPPER_Z_B {
                (b + 32) as u8
            } else {
                b
            },
    )
}

/// The sort key of a header or query pair: its key's bytes, lower-cased for
/// headers (canonical headers sort by the lower-cased name).
pub open spec fn key_bytes(p: (String, String), lowered: bool) -> Seq<u8> {
    if lowered {
        lower_bytes(string_bytes(p.0))
    } else {
        string_bytes(p.0)
    }
}

/// Pairs in non-decreasing key order.
pub open spec fn sorted_pairs(pairs: Seq<(String, String)>, lowered: bool) -> bool {
    forall|i: int, j: int|
        0 <= i < j < pairs.len() ==> lex_le(key_bytes(#[trigger] pairs[i], lowered), key_bytes(
            #[trigger] pairs[j],
            lowered,
        ))
}

/// The ASCII lowercasing of `s`'s bytes, computed.
fn lower_key_bytes(s: &String) -> (out: Vec<u8>)
    ensures
        out@ == lower_bytes(string_bytes(*s)),
{
    let bytes = s.as_str().as_bytes();
    let mut out: Vec<u8> = Vec::new();
    let mut i: usize = 0;
    while i < bytes.len()
        invariant
            i <= bytes@.len(),
            out@.len() == i,
            forall|m: int| 0 <= m < i ==> out@[m] == lower_bytes(bytes@)[m],
        decreases bytes@.len() - i,
    {
        let b = bytes[i];
        if 65 <= b && b <= 90 {
            out.push(b + 32);
        } else {
            out.push(b);
        }
        i = i + 1;
    }
    proof {
        assert(out@ =~= lower_bytes(bytes@));
    }
    out
}

/// Sorts the pairs by key, lexicographically on the key's bytes (lower-cased
/// when `lowered` asks for it): the result holds exactly the given pairs, in
/// non-decreasing key order.
pub fn sort_pairs_by_key(input: Vec<(String, String)>, lowered: bool) -> (out: Vec<
    (String, String),
>)
    ensures
        out@.len() == input@.len(),
        sorted_pairs(out@, lowered),
        out@.to_multiset() == input@.to_multiset(),
{
    broadcast use vstd::seq_lib::group_to_multiset_ensures;

    let ghost orig = input@;
    let mut work = input;
    let mut out: Vec<(String, String)> = Vec::new();
    while work.len() > 0
        invariant
            out@.to_multiset().add(work@.to_multiset()) =~= orig.to_multiset(),
            out@.len() + work@.len() == orig.len(),
            sorted_pairs(out@, lowered),
            forall|i: int, j: int|
                0 <= i < out@.len() && 0 <= j < work@.len() ==> lex_le(
                    key_bytes(#[trigger] out@[i], lowered),
                    key_bytes(#[trigger] work@[j], lowered),
                ),
        decreases work@.len(),
    {
        // find the least remaining key
        let n = work.len();
        let mut mi: usize = 0;
        let mut j: usize = 1;
        proof {
            lemma_lex_refl(key_bytes(work@[0], lowered));
        }
        while j < n
            invariant
                n == work@.len(),
                1 <= j <= n,
                mi < j,
                forall|m: int|
                    0 <= m < j ==> lex_le(key_bytes(work@[mi as int], lowered), key_bytes(
                        #[trigger] work@[m],
                        lowered,
                    )),
            decreases n - j,
        {
            let ahead = if lowered {
                let a = lower_key_bytes(&work[mi].0);
                let b = lower_key_bytes(&work[j].0);
                lex_le_bytes(a.as_slice(), b.as_slice())
            } else {
                lex_le_bytes(work[mi].0.as_str().as_bytes(), work[j].0.as_str().as_bytes())
            };
            if !ahead {
                proof {
                    lemma_lex_total(
                        key_bytes(work@[mi as int], lowered),
                        key_bytes(work@[j as int], lowered),
                    );
                    assert forall|m: int| 0 <= m < j implies lex_le(
                        key_bytes(work@[j as int], lowered),
                        key_bytes(work@[m], lowered),
                    ) by {
                        lemma_lex_trans(
                            key_bytes(work@[j as int], lowered),
                            key_bytes(work@[mi as int], lowered),
                            key_bytes(work@[m], lowered),
                        );
                    }
                }
                mi = j;
            }
            proof {
                lemma_lex_refl(key_bytes(work@[mi as int], lowered));
            }
            j = j + 1;
        }
        let ghost work_before = work@;
        let p = work.remove(mi);
        proof {
            work_before.to_multiset_ensures();
            assert(work@.to_multiset() =~= work_before.to_multiset().remove(p));
            out@.to_multiset_ensures();
            assert(out@.push(p).to_multiset() =~= out@.to_multiset().insert(p));
            assert(out@.push(p).to_multiset().add(work@.to_multiset()) =~= orig.to_multiset());
        }
        out.push(p);
    }
    proof {
        assert(work@.to_multiset() =~= Multiset::<(String, String)>::empty());
        assert(out@.to_multiset() =~= orig.to_multiset());
    }
    out
}

// ---------------------------------------------------------------------------
// Canonical request material
// ---------------------------------------------------------------------------

/// A byte string with leading and trailing spaces removed.
pub open spec fn trim_bytes(s: Seq<u8>) -> Seq<u8>
    decreases s.len(),
{
    if s.len() > 0 && s[0] == SPACE {
        trim_bytes(s.drop_first())
    } else if s.len() > 0 && s[s.len() - 1] == SPACE {
        trim_bytes(s.take(s.len() - 1))
    } else {
        s
    }
}

/// One canonical query pair: encoded key, `=`, encoded value.
pub open spec fn canonical_pair_bytes(k: Seq<u8>, v: Seq<u8>) -> Seq<u8> {
    encode_query_bytes(k) + seq![EQUALS] + encode_query_bytes(v)
}

/// The canonical query string: the pairs in the order given (the caller
/// sorts them), joined with `&`.
pub open spec fn canonical_query_bytes(pairs: Seq<(String, String)>) -> Seq<u8>
    decreases pairs.len(),
{
    if pairs.len() == 0 {
        Seq::empty()
    } else if pairs.len() == 1 {
        canonical_pair_bytes(string_bytes(pairs[0].0), string_bytes(pairs[0].1))
    } else {
        canonical_pair_bytes(string_bytes(pairs[0].0), string_bytes(pairs[0].1))
            + seq![AMP] + canonical_query_bytes(pairs.drop_first())
    }
}

/// One canonical header line: lower-cased name, `:`, trimmed value, newline.
pub open spec fn canonical_header_line(name: Seq<u8>, value: Seq<u8>) -> Seq<u8> {
    lower_bytes(name) + seq![COLON] + trim_bytes(value) + seq![LINE_FEED]
}

/// The canonical headers block: one line per header, in the order given (the
/// caller lower-cases names before sorting).
pub open spec fn canonical_headers_bytes(headers: Seq<(String, String)>) -> Seq<u8>
    decreases headers.len(),
{
    if headers.len() == 0 {
        Seq::empty()
    } else {
        canonical_header_line(string_bytes(headers[0].0), string_bytes(headers[0].1))
            + canonical_headers_bytes(headers.drop_first())
    }
}

/// The signed-headers list: the lower-cased names, joined with `;`.
pub open spec fn signed_headers_bytes(headers: Seq<(String, String)>) -> Seq<u8>
    decreases headers.len(),
{
    if headers.len() == 0 {
        Seq::empty()
    } else if headers.len() == 1 {
        lower_bytes(string_bytes(headers[0].0))
    } else {
        lower_bytes(string_bytes(headers[0].0)) + seq![SEMICOLON] + signed_headers_bytes(
            headers.drop_first(),
        )
    }
}

/// The canonical request: method, canonical URI, canonical query, canonical
/// headers, signed-headers list and the body hash, each on its own line.
pub open spec fn canonical_request_bytes(
    method: Seq<u8>,
    uri: Seq<u8>,
    query: Seq<(String, String)>,
    headers: Seq<(String, String)>,
    body: Seq<u8>,
) -> Seq<u8> {
    method + seq![LINE_FEED] + uri + seq![LINE_FEED] + canonical_query_bytes(query) + seq![
        LINE_FEED,
    ] + canonical_headers_bytes(headers) + seq![LINE_FEED] + signed_headers_bytes(headers) + seq![
        LINE_FEED,
    ] + hex_lower_bytes(sha256_of(body))
}

/// The credential scope: date, region, service and the terminal label,
/// joined with `/`.
pub open spec fn scope_bytes(date: Seq<u8>, region: Seq<u8>, service: Seq<u8>) -> Seq<u8> {
    date + "/".spec_bytes() + region + "/".spec_bytes() + service + "/aws4_request".spec_bytes()
}

/// The string to sign: the algorithm name, the timestamp, the scope, and the
/// hash of the canonical request, each on its own line.
pub open spec fn string_to_sign_bytes(datetime: Seq<u8>, scope: Seq<u8>, creq: Seq<u8>) -> Seq<
    u8,
> {
    "AWS4-HMAC-SHA256\n".spec_bytes() + datetime + seq![LINE_FEED] + scope + seq![LINE_FEED]
        + hex_lower_bytes(sha256_of(creq))
}

/// The signing key: the secret prefixed with the fixed label, run through the
/// HMAC chain over date, region, service and the terminal label.
pub open spec fn signing_key_bytes(secret: Seq<u8>, date: Seq<u8>, region: Seq<u8>, service: Seq<u8>) -> Seq<u8> {
    hmac_sha256_of(
        hmac_sha256_of(
            hmac_sha256_of(hmac_sha256_of("AWS4".spec_bytes() + secret, date), region),
            service,
        ),
        "aws4_request".spec_bytes(),
    )
}

/// The final signature: the string to sign under the signing key, in
/// lowercase hexadecimal.
pub open spec fn signature_hex_bytes(
    secret: Seq<u8>,
    date: Seq<u8>,
    region: Seq<u8>,
    service: Seq<u8>,
    string_to_sign: Seq<u8>,
) -> Seq<u8> {
    hex_lower_bytes(hmac_sha256_of(signing_key_bytes(secret, date, region, service), string_to_sign))
}

/// Signing is a function of the request content, timestamp and credentials
/// alone: equal inputs give byte-identical signatures.
pub proof fn lemma_signing_deterministic(
    secret: Seq<u8>,
    date: Seq<u8>,
    region: Seq<u8>,
    service: Seq<u8>,
    sts1: Seq<u8>,
    sts2: Seq<u8>,
)
    requires
        sts1 == sts2,
    ensures
        signature_hex_bytes(secret, date, region, service, sts1) == signature_hex_bytes(
            secret,
            date,
            region,
            service,
            sts2,
        ),
{
}


/// Whether every byte is ASCII.
pub open spec fn all_ascii(b: Seq<u8>) -> bool {
    forall|i: int| 0 <= i < b.len() ==> b[i] < 0x80
}

proof fn lemma_ascii_string_bytes(cs: Seq<char>)
    requires
        vstd::utf8::is_ascii_chars(cs),
    ensures
        all_ascii(vstd::utf8::encode_utf8(cs)),
{
    vstd::utf8::is_ascii_chars_encode_utf8(cs);
}

proof fn lemma_str_ascii(s: &str)
    requires
        vstd::string::is_ascii(s),
    ensures
        all_ascii(s.spec_bytes()),
{
    vstd::string::is_ascii_spec_bytes(s);
}

proof fn lemma_trim_leading(v: Seq<u8>, k: int)
    requires
        0 <= k <= v.len(),
        forall|m: int| 0 <= m < k ==> v[m] == SPACE,
    ensures
        trim_bytes(v) == trim_bytes(v.skip(k)),
    decreases k,
{
    if k > 0 {
        assert(v[0] == SPACE);
        assert(trim_bytes(v) == trim_bytes(v.drop_first()));
        assert(v.drop_first() =~= v.skip(1));
        assert(forall|m: int| 0 <= m < k - 1 ==> v.skip(1)[m] == SPACE);
        lemma_trim_leading(v.skip(1), k - 1);
        assert(v.skip(1).skip(k - 1) =~= v.skip(k));
    } else {
        assert(v.skip(0) =~= v);
    }
}

proof fn lemma_trim_trailing(v: Seq<u8>, e: int)
    requires
        1 <= e <= v.len(),
        v[0] != SPACE,
        v[e - 1] != SPACE,
        forall|m: int| e <= m < v.len() ==> v[m] == SPACE,
    ensures
        trim_bytes(v) == v.take(e),
    decreases v.len(),
{
    if v.len() > e {
        assert(v[v.len() - 1] == SPACE);
        assert(trim_bytes(v) == trim_bytes(v.take(v.len() - 1)));
        let w = v.take(v.len() - 1);
        assert(w[0] == v[0] && w[e - 1] == v[e - 1]);
        assert(forall|m: int| e <= m < w.len() ==> w[m] == SPACE);
        lemma_trim_trailing(w, e);
        assert(w.take(e) =~= v.take(e));
    } else {
        assert(v.take(e) =~= v);
    }
}

/// The value with leading and trailing spaces removed, computed.
pub fn trim_spaces(v: &[u8]) -> (out: Vec<u8>)
    ensures
        out@ == trim_bytes(v@),
{
    let n = v.len();
    let mut start: usize = 0;
    while start < n && v[start] == SPACE
        invariant
            n == v@.len(),
            start <= n,
            forall|m: int| 0 <= m < start ==> v@[m] == SPACE,
        decreases n - start,
    {
        start = start + 1;
    }
    proof {
        lemma_trim_leading(v@, start as int);
    }
    if start == n {
        proof {
            assert(v@.skip(start as int) =~= Seq::<u8>::empty());
        }
        return Vec::new();
    }
    let mut end: usize = n;
    while end > start + 1 && v[end - 1] == SPACE
        invariant
            n == v@.len(),
            start < end <= n,
            forall|m: int| end <= m < n ==> v@[m] == SPACE,
        decreases end,
    {
        end = end - 1;
    }
    let ghost sfx = v@.skip(start as int);
    proof {
        assert(sfx[0] == v@[start as int] && sfx[0] != SPACE);
        if v@[end - 1] == SPACE {
            // can only happen when end == start + 1, but v[start] != SPACE
            assert(end == start + 1);
            assert(false);
        }
        assert(sfx[end - start - 1] == v@[end - 1]);
        assert(forall|m: int| end - start <= m < sfx.len() ==> sfx[m] == SPACE);
        lemma_trim_trailing(sfx, end - start);
    }
    let mut out: Vec<u8> = Vec::new();
    let mut i: usize = start;
    while i < end
        invariant
            start <= i <= end <= n,
            n == v@.len(),
            out@.len() == i - start,
            forall|m: int| 0 <= m < out@.len() ==> out@[m] == v@[start + m],
        decreases end - i,
    {
        out.push(v[i]);
        i = i + 1;
    }
    proof {
        assert(out@ =~= sfx.take(end - start as int));
    }
    out
}

proof fn lemma_cq_push(pairs: Seq<(String, String)>, p: (String, String))
    ensures
        canonical_query_bytes(pairs.push(p)) == if pairs.len() == 0 {
            canonical_pair_bytes(string_bytes(p.0), string_bytes(p.1))
        } else {
            canonical_query_bytes(pairs) + seq![AMP] + canonical_pair_bytes(
                string_bytes(p.0),
                string_bytes(p.1),
            )
        },
    decreases pairs.len(),
{
    let whole = pairs.push(p);
    if pairs.len() == 0 {
        assert(whole.len() == 1 && whole[0] == p);
    } else if pairs.len() == 1 {
        assert(whole.len() == 2);
        assert(whole.drop_first() =~= seq![p]);
        assert(canonical_query_bytes(seq![p]) == canonical_pair_bytes(
            string_bytes(p.0),
            string_bytes(p.1),
        ));
        assert(canonical_query_bytes(whole) =~= canonical_query_bytes(pairs) + seq![AMP]
            + canonical_pair_bytes(string_bytes(p.0), string_bytes(p.1)));
    } else {
        assert(whole.drop_first() =~= pairs.drop_first().push(p));
        lemma_cq_push(pairs.drop_first(), p);
        assert(canonical_query_bytes(whole) =~= canonical_query_bytes(pairs) + seq![AMP]
            + canonical_pair_bytes(string_bytes(p.0), string_bytes(p.1)));
    }
}

/// Appends the canonical query string of the pairs, in the order given.
pub fn canonical_query_append(out: &mut Vec<u8>, pairs: &Vec<(String, String)>)
    ensures
        final(out)@ == old(out)@ + canonical_query_bytes(pairs@),
{
    let n = pairs.len();
    let mut i: usize = 0;
    proof {
        assert(pairs@.take(0) =~= Seq::<(String, String)>::empty());
        assert(out@ =~= old(out)@ + canonical_query_bytes(pairs@.take(0)));
    }
    while i < n
        invariant
            n == pairs@.len(),
            i <= n,
            out@ == old(out)@ + canonical_query_bytes(pairs@.take(i as int)),
        decreases n - i,
    {
        if i > 0 {
            out.push(AMP);
        }
        encode_append(out, pairs[i].0.as_str().as_bytes(), Literals::QueryComponent);
        out.push(EQUALS);
        encode_append(out, pairs[i].1.as_str().as_bytes(), Literals::QueryComponent);
        proof {
            lemma_cq_push(pairs@.take(i as int), pairs@[i as int]);
            assert(pairs@.take(i + 1) =~= pairs@.take(i as int).push(pairs@[i as int]));
            assert(out@ =~= old(out)@ + canonical_query_bytes(pairs@.take(i + 1)));
        }
        i = i + 1;
    }
    proof {
        assert(pairs@.take(n as int) =~= pairs@);
    }
}

proof fn lemma_ch_push(headers: Seq<(String, String)>, h: (String, String))
    ensures
        canonical_headers_bytes(headers.push(h)) == canonical_headers_bytes(headers)
            + canonical_header_line(string_bytes(h.0), string_bytes(h.1)),
    decreases headers.len(),
{
    let whole = headers.push(h);
    if headers.len() == 0 {
        assert(whole.drop_first() =~= Seq::<(String, String)>::empty());
        assert(canonical_headers_bytes(Seq::<(String, String)>::empty()) =~= Seq::<u8>::empty());
        assert(canonical_headers_bytes(whole) =~= canonical_headers_bytes(headers)
            + canonical_header_line(string_bytes(h.0), string_bytes(h.1)));
    } else {
        assert(whole.drop_first() =~= headers.drop_first().push(h));
        lemma_ch_push(headers.drop_first(), h);
        assert(canonical_headers_bytes(whole) =~= canonical_headers_bytes(headers)
            + canonical_header_line(string_bytes(h.0), string_bytes(h.1)));
    }
}

/// Appends the canonical headers block: one line per header, in the order
/// given, with the name lower-cased and the value trimmed.
pub fn canonical_headers_append(out: &mut Vec<u8>, headers: &Vec<(String, String)>)
    ensures
        final(out)@ == old(out)@ + canonical_headers_bytes(headers@),
{
    let n = headers.len();
    let mut i: usize = 0;
    proof {
        assert(headers@.take(0) =~= Seq::<(String, String)>::empty());
        assert(out@ =~= old(out)@ + canonical_headers_bytes(headers@.take(0)));
    }
    while i < n
        invariant
            n == headers@.len(),
            i <= n,
            out@ == old(out)@ + canonical_headers_bytes(headers@.take(i as int)),
        decreases n - i,
    {
        let name = lower_key_bytes(&headers[i].0);
        append_bytes(out, name.as_slice());
        out.push(COLON);
        let value = trim_spaces(headers[i].1.as_str().as_bytes());
        append_bytes(out, value.as_slice());
        out.push(LINE_FEED);
        proof {
            lemma_ch_push(headers@.take(i as int), headers@[i as int]);
            assert(headers@.take(i + 1) =~= headers@.take(i as int).push(headers@[i as int]));
            assert(out@ =~= old(out)@ + canonical_headers_bytes(headers@.take(i + 1)));
        }
        i = i + 1;
    }
    proof {
        assert(headers@.take(n as int) =~= headers@);
    }
}

proof fn lemma_sh_push(headers: Seq<(String, String)>, h: (String, String))
    ensures
        signed_headers_bytes(headers.push(h)) == if headers.len() == 0 {
            lower_bytes(string_bytes(h.0))
        } else {
            signed_headers_bytes(headers) + seq![SEMICOLON] + lower_bytes(string_bytes(h.0))
        },
    decreases headers.len(),
{
    let whole = headers.push(h);
    if headers.len() == 0 {
        assert(whole.len() == 1 && whole[0] == h);
    } else if headers.len() == 1 {
        assert(whole.len() == 2);
        assert(whole.drop_first() =~= seq![h]);
        assert(signed_headers_bytes(seq![h]) == lower_bytes(string_bytes(h.0)));
        assert(signed_headers_bytes(whole) =~= signed_headers_bytes(headers) + seq![SEMICOLON]
            + lower_bytes(string_bytes(h.0)));
    } else {
        assert(whole.drop_first() =~= headers.drop_first().push(h));
        lemma_sh_push(headers.drop_first(), h);
        assert(signed_headers_bytes(whole) =~= signed_headers_bytes(headers) + seq![SEMICOLON]
            + lower_bytes(string_bytes(h.0)));
    }
}

/// Appends the signed-headers list: the lower-cased names joined with `;`.
pub fn signed_headers_append(out: &mut Vec<u8>, headers: &Vec<(String, String)>)
    ensures
        final(out)@ == old(out)@ + signed_headers_bytes(headers@),
{
    let n = headers.len();
    let mut i: usize = 0;
    proof {
        assert(headers@.take(0) =~= Seq::<(String, String)>::empty());
        assert(out@ =~= old(out)@ + signed_headers_bytes(headers@.take(0)));
    }
    while i < n
        invariant
            n == headers@.len(),
            i <= n,
            out@ == old(out)@ + signed_headers_bytes(headers@.take(i as int)),
        decreases n - i,
    {
        if i > 0 {
            out.push(SEMICOLON);
        }
        let name = lower_key_bytes(&headers[i].0);
        append_bytes(out, name.as_slice());
        proof {
            lemma_sh_push(headers@.take(i as int), headers@[i as int]);
            assert(headers@.take(i + 1) =~= headers@.take(i as int).push(headers@[i as int]));
            assert(out@ =~= old(out)@ + signed_headers_bytes(headers@.take(i + 1)));
        }
        i = i + 1;
    }
    proof {
        assert(headers@.take(n as int) =~= headers@);
    }
}

/// The Authorization header value: the algorithm, the credential (access key
/// and scope), the signed-headers list, and the signature.
pub open spec fn authorization_bytes(
    access: Seq<u8>,
    scope: Seq<u8>,
    signed: Seq<u8>,
    signature: Seq<u8>,
) -> Seq<u8> {
    "AWS4-HMAC-SHA256 Credential=".spec_bytes() + access + "/".spec_bytes() + scope
        + ", SignedHeaders=".spec_bytes() + signed + ", Signature=".spec_bytes() + signature
}

/// The material of the signing variant.
pub struct SigningCredentials {
    /// The public key identifier, sent in the credential scope.
    pub access_key: String,
    /// The secret; never sent, only run through the HMAC chain.
    pub secret_key: String,
    /// The region the request is scoped to.
    pub region: String,
    /// The service name the request is scoped to.
    pub service: String,
    /// When the credentials expire (milliseconds), if they do.
    pub expiry: Option<u64>,
}

impl SigningCredentials {
    /// Whether the credentials can sign at `now`: both key parts present and
    /// not yet expired.
    pub open spec fn spec_usable(self, now: u64) -> bool {
        string_bytes(self.access_key).len() > 0 && string_bytes(self.secret_key).len() > 0
            && match self.expiry {
            Option::None => true,
            Option::Some(t) => now < t,
        }
    }

    /// The ASCII conditions the scheme puts on the signing material: the
    /// access key, region, service and header names all travel inside an
    /// ASCII header line.
    pub open spec fn spec_ascii_material(self, headers: Seq<(String, String)>) -> bool {
        &&& vstd::utf8::is_ascii_chars(self.access_key@)
        &&& vstd::utf8::is_ascii_chars(self.region@)
        &&& vstd::utf8::is_ascii_chars(self.service@)
        &&& forall|i: int|
            0 <= i < headers.len() ==> vstd::utf8::is_ascii_chars((#[trigger] headers[i]).0@)
    }
}

/// What signing emits for a request whose query and headers stand in
/// canonical order: the timestamp header, the content hash header, and the
/// Authorization line carrying scope, signed-headers list and signature.
pub open spec fn signing_output(
    creds: SigningCredentials,
    method: &str,
    canonical_uri: &str,
    query: Seq<(String, String)>,
    headers: Seq<(String, String)>,
    body: Seq<u8>,
    date: &str,
    datetime: &str,
    hs: Seq<(String, String)>,
) -> bool {
    let creq = canonical_request_bytes(
        method.spec_bytes(),
        canonical_uri.spec_bytes(),
        query,
        headers,
        body,
    );
    let scope = scope_bytes(date.spec_bytes(), string_bytes(creds.region), string_bytes(creds.service));
    let sts = string_to_sign_bytes(datetime.spec_bytes(), scope, creq);
    let sig = signature_hex_bytes(
        string_bytes(creds.secret_key),
        date.spec_bytes(),
        string_bytes(creds.region),
        string_bytes(creds.service),
        sts,
    );
    &&& hs.len() == 3
    &&& hs[0].0@ == "x-amz-date"@ && hs[0].1@ == datetime@
    &&& hs[1].0@ == "x-amz-content-sha256"@ && hs[1].1@ == ascii_chars(
        hex_lower_bytes(sha256_of(body)),
    )
    &&& hs[2].0@ == "authorization"@ && hs[2].1@ == ascii_chars(
        authorization_bytes(
            string_bytes(creds.access_key),
            scope,
            signed_headers_bytes(headers),
            sig,
        ),
    )
}

/// The signature headers for a request whose query and headers are already in
/// canonical order: `x-amz-date`, `x-amz-content-sha256` and `authorization`.
/// Fails with `SigningError` exactly when the credentials are absent or
/// expired at signing time.
#[verifier::rlimit(100)]
#[verifier::spinoff_prover]
pub fn sign_request(
    creds: &SigningCredentials,
    method: &str,
    canonical_uri: &str,
    query: &Vec<(String, String)>,
    headers: &Vec<(String, String)>,
    body: &[u8],
    date: &str,
    datetime: &str,
    now: u64,
) -> (r: Result<Vec<(String, String)>, TransportError>)
    requires
        sorted_pairs(query@, false),
        sorted_pairs(headers@, true),
        creds.spec_ascii_material(headers@),
        vstd::string::is_ascii(date),
    ensures
        r is Ok <==> creds.spec_usable(now),
        r is Err ==> r->Err_0 == TransportError::SigningError,
        r is Ok ==> signing_output(
            *creds,
            method,
            canonical_uri,
            query@,
            headers@,
            body@,
            date,
            datetime,
            r->Ok_0@,
        ),
{
    if creds.access_key.as_str().as_bytes().len() == 0
        || creds.secret_key.as_str().as_bytes().len() == 0 {
        return Err(TransportError::SigningError);
    }
    match &creds.expiry {
        Some(t) => {
            if now >= *t {
                return Err(TransportError::SigningError);
            }
        },
        None => {},
    }
    // canonical request
    let mut creq: Vec<u8> = Vec::new();
    append_bytes(&mut creq, method.as_bytes());
    creq.push(LINE_FEED);
    append_bytes(&mut creq, canonical_uri.as_bytes());
    creq.push(LINE_FEED);
    canonical_query_append(&mut creq, query);
    creq.push(LINE_FEED);
    canonical_headers_append(&mut creq, headers);
    creq.push(LINE_FEED);
    signed_headers_append(&mut creq, headers);
    creq.push(LINE_FEED);
    let body_hash = sha256(body);
    let mut body_hash_hex: Vec<u8> = Vec::new();
    hex_lower_append(&mut body_hash_hex, body_hash.as_slice());
    append_bytes(&mut creq, body_hash_hex.as_slice());
    proof {
        assert(creq@ =~= canonical_request_bytes(
            method.spec_bytes(),
            canonical_uri.spec_bytes(),
            query@,
            headers@,
            body@,
        ));
    }
    // credential scope
    let mut scope: Vec<u8> = Vec::new();
    append_bytes(&mut scope, date.as_bytes());
    append_bytes(&mut scope, "/".as_bytes());
    append_bytes(&mut scope, creds.region.as_str().as_bytes());
    append_bytes(&mut scope, "/".as_bytes());
    append_bytes(&mut scope, creds.service.as_str().as_bytes());
    append_bytes(&mut scope, "/aws4_request".as_bytes());
    proof {
        assert(scope@ =~= scope_bytes(
            date.spec_bytes(),
            string_bytes(creds.region),
            string_bytes(creds.service),
        ));
    }
    // string to sign
    let mut sts: Vec<u8> = Vec::new();
    append_bytes(&mut sts, "AWS4-HMAC-SHA256\n".as_bytes());
    append_bytes(&mut sts, datetime.as_bytes());
    sts.push(LINE_FEED);
    append_bytes(&mut sts, scope.as_slice());
    sts.push(LINE_FEED);
    let creq_hash = sha256(creq.as_slice());
    hex_lower_append(&mut sts, creq_hash.as_slice());
    let ghost spec_scope = scope_bytes(
        date.spec_bytes(),
        string_bytes(creds.region),
        string_bytes(creds.service),
    );
    let ghost spec_creq = canonical_request_bytes(
        method.spec_bytes(),
        canonical_uri.spec_bytes(),
        query@,
        headers@,
        body@,
    );
    proof {
        assert(sts@ =~= string_to_sign_bytes(datetime.spec_bytes(), spec_scope, spec_creq));
    }
    // signing key chain
    let mut k0: Vec<u8> = Vec::new();
    append_bytes(&mut k0, "AWS4".as_bytes());
    append_bytes(&mut k0, creds.secret_key.as_str().as_bytes());
    proof {
        assert(k0@ =~= "AWS4".spec_bytes() + string_bytes(creds.secret_key));
    }
    let k_date = hmac_sha256(k0.as_slice(), date.as_bytes());
    let k_region = hmac_sha256(k_date.as_slice(), creds.region.as_str().as_bytes());
    let k_service = hmac_sha256(k_region.as_slice(), creds.service.as_str().as_bytes());
    let k_signing = hmac_sha256(k_service.as_slice(), "aws4_request".as_bytes());
    let tag = hmac_sha256(k_signing.as_slice(), sts.as_slice());
    let mut sig_hex: Vec<u8> = Vec::new();
    hex_lower_append(&mut sig_hex, tag.as_slice());
    // the Authorization value
    let mut auth: Vec<u8> = Vec::new();
    append_bytes(&mut auth, "AWS4-HMAC-SHA256 Credential=".as_bytes());
    append_bytes(&mut auth, creds.access_key.as_str().as_bytes());
    append_bytes(&mut auth, "/".as_bytes());
    append_bytes(&mut auth, scope.as_slice());
    append_bytes(&mut auth, ", SignedHeaders=".as_bytes());
    signed_headers_append(&mut auth, headers);
    append_bytes(&mut auth, ", Signature=".as_bytes());
    append_bytes(&mut auth, sig_hex.as_slice());
    proof {
        let sig = signature_hex_bytes(
            string_bytes(creds.secret_key),
            date.spec_bytes(),
            string_bytes(creds.region),
            string_bytes(creds.service),
            string_to_sign_bytes(datetime.spec_bytes(), spec_scope, spec_creq),
        );
        assert(auth@ =~= authorization_bytes(
            string_bytes(creds.access_key),
            spec_scope,
            signed_headers_bytes(headers@),
            sig,
        ));
        // everything in the Authorization value is ASCII
        reveal_strlit("AWS4-HMAC-SHA256 Credential=");
        reveal_strlit("/");
        reveal_strlit(", SignedHeaders=");
        reveal_strlit(", Signature=");
        reveal_strlit("/aws4_request");
        lemma_str_ascii("AWS4-HMAC-SHA256 Credential=");
        lemma_str_ascii("/");
        lemma_str_ascii(", SignedHeaders=");
        lemma_str_ascii(", Signature=");
        lemma_str_ascii("/aws4_request");
        lemma_str_ascii(date);
        lemma_ascii_string_bytes(creds.access_key@);
        lemma_ascii_string_bytes(creds.region@);
        lemma_ascii_string_bytes(creds.service@);
        lemma_hex_lower_ascii(hmac_sha256_of(
            signing_key_bytes(
                string_bytes(creds.secret_key),
                date.spec_bytes(),
                string_bytes(creds.region),
                string_bytes(creds.service),
            ),
            string_to_sign_bytes(datetime.spec_bytes(), spec_scope, spec_creq),
        ));
        lemma_signed_headers_ascii(headers@);
        lemma_hex_lower_ascii(sha256_of(body@));
    }
    let mut out: Vec<(String, String)> = Vec::new();
    out.push((String::from_str("x-amz-date"), String::from_str(datetime)));
    out.push((String::from_str("x-amz-content-sha256"), ascii_to_string(body_hash_hex)));
    out.push((String::from_str("authorization"), ascii_to_string(auth)));
    Ok(out)
}

/// Every byte of a signed-headers list over ASCII names is ASCII.
proof fn lemma_signed_headers_ascii(headers: Seq<(String, String)>)
    requires
        forall|i: int|
            0 <= i < headers.len() ==> vstd::utf8::is_ascii_chars((#[trigger] headers[i]).0@),
    ensures
        all_ascii(signed_headers_bytes(headers)),
    decreases headers.len(),
{
    if headers.len() > 0 {
        let name = lower_bytes(string_bytes(headers[0].0));
        lemma_ascii_string_bytes(headers[0].0@);
        assert(all_ascii(name)) by {
            assert(forall|i: int|
                0 <= i < name.len() ==> name[i] == lower_bytes(string_bytes(headers[0].0))[i]);
        }
        if headers.len() > 1 {
            lemma_signed_headers_ascii(headers.drop_first());
            let whole = signed_headers_bytes(headers);
            let rest = signed_headers_bytes(headers.drop_first());
            assert(whole =~= name + seq![SEMICOLON] + rest);
            assert forall|i: int| 0 <= i < whole.len() implies whole[i] < 0x80 by {
                if i < name.len() {
                    assert(whole[i] == name[i]);
                } else if i == name.len() {
                    assert(whole[i] == SEMICOLON);
                } else {
                    assert(whole[i] == rest[i - name.len() - 1]);
                }
            }
        }
    }
}

/// The authentication variants: none, basic credentials, request signing.
pub enum AuthProvider {
    /// No authentication: no headers are added.
    Anonymous,
    /// Basic credentials: user name and password, sent base64-encoded.
    Basic(String, String),
    /// Canonical-request signing with these credentials.
    Signing(SigningCredentials),
}

impl AuthProvider {
    /// The headers to attach to an outgoing request; the request itself, its
    /// body above all, is never changed. The signing variant sorts the query
    /// by key and the headers by lower-cased name, then signs; it fails with
    /// `SigningError` exactly when the credentials are absent or expired.
    pub fn sign(
        &self,
        method: &str,
        canonical_uri: &str,
        query: Vec<(String, String)>,
        headers: Vec<(String, String)>,
        body: &[u8],
        date: &str,
        datetime: &str,
        now: u64,
    ) -> (r: Result<Vec<(String, String)>, TransportError>)
        requires
            self is Signing ==> self->Signing_0.spec_ascii_material(headers@)
                && vstd::string::is_ascii(date),
        ensures
            self is Anonymous ==> r is Ok && r->Ok_0@.len() == 0,
            self is Basic ==> r is Ok && r->Ok_0@.len() == 1 && r->Ok_0@[0].0@ == "authorization"@
                && r->Ok_0@[0].1@ == "Basic "@ + base64_of(
                string_bytes(self->Basic_0) + seq![COLON] + string_bytes(self->Basic_1),
            ),
            self is Signing ==> {
                &&& r is Ok <==> self->Signing_0.spec_usable(now)
                &&& r is Err ==> r->Err_0 == TransportError::SigningError
                &&& r is Ok ==> exists|sq: Seq<(String, String)>, sh: Seq<(String, String)>|
                    {
                        &&& sorted_pairs(sq, false)
                        &&& sq.to_multiset() == query@.to_multiset()
                        &&& sorted_pairs(sh, true)
                        &&& sh.to_multiset() == headers@.to_multiset()
                        &&& #[trigger] signing_output(
                            self->Signing_0,
                            method,
                            canonical_uri,
                            sq,
                            sh,
                            body@,
                            date,
                            datetime,
                            r->Ok_0@,
                        )
                    }
            },
    {
        match self {
            AuthProvider::Anonymous => Ok(Vec::new()),
            AuthProvider::Basic(user, pass) => {
                let mut cred: Vec<u8> = Vec::new();
                append_bytes(&mut cred, user.as_str().as_bytes());
                cred.push(COLON);
                append_bytes(&mut cred, pass.as_str().as_bytes());
                proof {
                    assert(cred@ =~= string_bytes(*user) + seq![COLON] + string_bytes(*pass));
                }
                let encoded = base64_encode(cred.as_slice());
                let value = String::from_str("Basic ").concat(encoded.as_str());
                let mut out: Vec<(String, String)> = Vec::new();
                out.push((String::from_str("authorization"), value));
                Ok(out)
            },
            AuthProvider::Signing(creds) => {
                let ghost orig_h = headers@;
                let sorted_q = sort_pairs_by_key(query, false);
                let sorted_h = sort_pairs_by_key(headers, true);
                proof {
                    broadcast use vstd::seq_lib::group_to_multiset_ensures;

                    assert forall|i: int|
                        0 <= i < sorted_h@.len() implies vstd::utf8::is_ascii_chars(
                        (#[trigger] sorted_h@[i]).0@,
                    ) by {
                        assert(sorted_h@.contains(sorted_h@[i]));
                        assert(sorted_h@.to_multiset().count(sorted_h@[i]) > 0);
                        assert(orig_h.to_multiset().count(sorted_h@[i]) > 0);
                        assert(orig_h.contains(sorted_h@[i]));
                        let j = choose|j: int|
                            0 <= j < orig_h.len() && orig_h[j] == sorted_h@[i];
                        assert(vstd::utf8::is_ascii_chars(orig_h[j].0@));
                    }
                }
                let r = sign_request(
                    creds,
                    method,
                    canonical_uri,
                    &sorted_q,
                    &sorted_h,
                    body,
                    date,
                    datetime,
                    now,
                );
                proof {
                    if r is Ok {
                        assert(signing_output(
                            *creds,
                            method,
                            canonical_uri,
                            sorted_q@,
                            sorted_h@,
                            body@,
                            date,
                            datetime,
                            r->Ok_0@,
                        ));
                    }
                }
                r
            },
        }
    }
}

/// Every byte of a canonical query string is ASCII: the reserved bytes are
/// escaped and the escapes are ASCII.
pub proof fn lemma_canonical_query_ascii(pairs: Seq<(String, String)>)
    ensures
        all_ascii(canonical_query_bytes(pairs)),
    decreases pairs.len(),
{
    if pairs.len() > 0 {
        let k = encode_query_bytes(string_bytes(pairs[0].0));
        let v = encode_query_bytes(string_bytes(pairs[0].1));
        let head = canonical_pair_bytes(string_bytes(pairs[0].0), string_bytes(pairs[0].1));
        lemma_encode_ascii(Literals::QueryComponent, string_bytes(pairs[0].0));
        lemma_encode_ascii(Literals::QueryComponent, string_bytes(pairs[0].1));
        assert forall|i: int| 0 <= i < head.len() implies head[i] < 0x80 by {
            if i < k.len() {
                assert(head[i] == k[i]);
            } else if i == k.len() {
                assert(head[i] == EQUALS);
            } else {
                assert(head[i] == v[i - k.len() - 1]);
            }
        }
        if pairs.len() > 1 {
            lemma_canonical_query_ascii(pairs.drop_first());
            let whole = canonical_query_bytes(pairs);
            let rest = canonical_query_bytes(pairs.drop_first());
            assert(whole =~= head + seq![AMP] + rest);
            assert forall|i: int| 0 <= i < whole.len() implies whole[i] < 0x80 by {
                if i < head.len() {
                    assert(whole[i] == head[i]);
                } else if i == head.len() {
                    assert(whole[i] == AMP);
                } else {
                    assert(whole[i] == rest[i - head.len() - 1]);
                }
            }
        }
    }
}
} // verus!
