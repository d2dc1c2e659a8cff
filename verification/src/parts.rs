//! URL path construction from endpoint parts.
//!
//! Several values for one logical part (a list of index names) are joined
//! with a literal comma first; the joined part is then percent-encoded as a
//! whole, so the comma separator itself is never escaped. Parts are framed
//! with `/` around them and followed by the endpoint's operation name.

use crate::TransportError;
use crate::encoding::COMMA;
use crate::encoding::Literals;
use crate::encoding::SLASH;
use crate::encoding::ascii_to_string;
use crate::encoding::encode_append;
use crate::encoding::encode_part_bytes;
use crate::encoding::lemma_encode_ascii;
use vstd::prelude::*;
use vstd::string::StringSliceAdditionalSpecFns;

verus! {

/// The comma-joined bytes of a sequence of parts (no trailing separator).
pub open spec fn joined_bytes(parts: Seq<Seq<u8>>) -> Seq<u8>
    decreases parts.len(),
{
    if parts.len() == 0 {
        Seq::empty()
    } else if parts.len() == 1 {
        parts[0]
    } else {
        parts[0] + seq![COMMA] + joined_bytes(parts.drop_first())
    }
}

/// Whether every part is empty (vacuously true of no parts at all).
pub open spec fn all_parts_empty(parts: Seq<Seq<u8>>) -> bool {
    forall|i: int| 0 <= i < parts.len() ==> #[trigger] parts[i].len() == 0
}

/// The URL path of an endpoint: `/`, the percent-encoded comma-joined parts,
/// `/`, and the operation name. With no parts (or only empty ones) the path
/// collapses to `/` and the operation name alone, never a double `/`.
pub open spec fn api_path_bytes(parts: Seq<Seq<u8>>, op: Seq<u8>) -> Seq<u8> {
    if all_parts_empty(parts) {
        seq![SLASH] + op
    } else {
        seq![SLASH] + encode_part_bytes(joined_bytes(parts)) + seq![SLASH] + op
    }
}

/// A byte sequence read as the string characters it prints as.
pub open spec fn path_chars(bytes: Seq<u8>) -> Seq<char> {
    crate::encoding::ascii_chars(bytes)
}

/// The byte views of a list of string parts.
pub open spec fn parts_bytes(values: Seq<&str>) -> Seq<Seq<u8>> {
    values.map_values(|s: &str| s.spec_bytes())
}

/// Joining one more part appends a comma separator (unless nothing stood
/// before it) and then the part.
pub proof fn lemma_joined_push(parts: Seq<Seq<u8>>, p: Seq<u8>)
    ensures
        joined_bytes(parts.push(p)) == if parts.len() == 0 {
            p
        } else {
            joined_bytes(parts) + seq![COMMA] + p
        },
    decreases parts.len(),
{
    let whole = parts.push(p);
    if parts.len() == 0 {
        assert(whole.len() == 1);
        assert(whole[0] == p);
    } else if parts.len() == 1 {
        assert(whole.len() == 2);
        assert(whole.drop_first() =~= seq![p]);
        assert(joined_bytes(seq![p]) == p);
        assert(joined_bytes(whole) =~= parts[0] + seq![COMMA] + p);
    } else {
        assert(whole.drop_first() =~= parts.drop_first().push(p));
        lemma_joined_push(parts.drop_first(), p);
        assert(joined_bytes(whole) =~= joined_bytes(parts) + seq![COMMA] + p);
    }
}

/// Appends all bytes of `more` to `out`.
pub fn append_bytes(out: &mut Vec<u8>, more: &[u8])
    ensures
        final(out)@ == old(out)@ + more@,
{
    let mut i: usize = 0;
    while i < more.len()
        invariant
            i <= more@.len(),
            out@ == old(out)@ + more@.take(i as int),
        decreases more@.len() - i,
    {
        out.push(more[i]);
        proof {
            assert(more@.take(i + 1) =~= more@.take(i as int).push(more@[i as int]));
            assert(out@ =~= old(out)@ + more@.take(i + 1));
        }
        i = i + 1;
    }
    proof {
        assert(more@.take(more@.len() as int) =~= more@);
    }
}

/// Whether every value in the list is the empty string.
fn all_empty(values: &[&str]) -> (r: bool)
    ensures
        r == all_parts_empty(parts_bytes(values@)),
{
    let mut i: usize = 0;
    while i < values.len()
        invariant
            i <= values@.len(),
            forall|j: int| 0 <= j < i ==> #[trigger] parts_bytes(values@)[j].len() == 0,
        decreases values@.len() - i,
    {
        if values[i].as_bytes().len() > 0 {
            assert(parts_bytes(values@)[i as int].len() > 0);
            return false;
        }
        proof {
            assert(parts_bytes(values@)[i as int].len() == 0);
        }
        i = i + 1;
    }
    true
}

/// The comma-joined bytes of the values.
fn join_comma(values: &[&str]) -> (out: Vec<u8>)
    ensures
        out@ == joined_bytes(parts_bytes(values@)),
{
    let ghost views = parts_bytes(values@);
    let mut out: Vec<u8> = Vec::new();
    let mut i: usize = 0;
    proof {
        assert(views.take(0) =~= Seq::<Seq<u8>>::empty());
        assert(out@ =~= joined_bytes(views.take(0)));
    }
    while i < values.len()
        invariant
            i <= values@.len(),
            out@ == joined_bytes(views.take(i as int)),
            views == parts_bytes(values@),
        decreases values@.len() - i,
    {
        if i > 0 {
            out.push(COMMA);
        }
        append_bytes(&mut out, values[i].as_bytes());
        proof {
            lemma_joined_push(views.take(i as int), views[i as int]);
            assert(views.take(i + 1) =~= views.take(i as int).push(views[i as int]));
            assert(out@ =~= joined_bytes(views.take(i + 1)));
        }
        i = i + 1;
    }
    proof {
        assert(views.take(views.len() as int) =~= views);
    }
    out
}

/// Builds the URL path for an endpoint from its parts and operation name.
pub fn api_path(values: &[&str], op: &str) -> (r: String)
    requires
        forall|i: int| 0 <= i < op.spec_bytes().len() ==> op.spec_bytes()[i] < 0x80,
    ensures
        r@ == path_chars(api_path_bytes(parts_bytes(values@), op.spec_bytes())),
{
    let ghost views = parts_bytes(values@);
    let mut out: Vec<u8> = Vec::new();
    out.push(SLASH);
    if !all_empty(values) {
        let joined = join_comma(values);
        encode_append(&mut out, joined.as_slice(), Literals::UrlPart);
        out.push(SLASH);
        proof {
            lemma_encode_ascii(Literals::UrlPart, joined@);
            assert(out@ =~= seq![SLASH] + encode_part_bytes(joined_bytes(views)) + seq![SLASH]);
        }
    }
    append_bytes(&mut out, op.as_bytes());
    proof {
        assert(out@ =~= api_path_bytes(views, op.spec_bytes()));
    }
    ascii_to_string(out)
}

/// Validates and encodes a part that must name something: an empty value is
/// rejected with `InvalidPart`; a non-empty one is percent-encoded.
pub fn encode_required_part(value: &str) -> (r: Result<String, TransportError>)
    ensures
        value.spec_bytes().len() == 0 <==> r is Err,
        r is Err ==> r->Err_0 == TransportError::InvalidPart,
        r is Ok ==> r->Ok_0@ == path_chars(encode_part_bytes(value.spec_bytes())),
{
    if value.as_bytes().len() == 0 {
        Err(TransportError::InvalidPart)
    } else {
        let mut out: Vec<u8> = Vec::new();
        encode_append(&mut out, value.as_bytes(), Literals::UrlPart);
        proof {
            lemma_encode_ascii(Literals::UrlPart, value.spec_bytes());
            assert(out@ =~= encode_part_bytes(value.spec_bytes()));
        }
        Ok(ascii_to_string(out))
    }
}

/// The bytes of the search endpoint's operation name, `_search`.
pub open spec fn search_op_bytes() -> Seq<u8> {
    seq![95u8, 115u8, 101u8, 97u8, 114u8, 99u8, 104u8]
}

/// The URL parts of the search endpoint: every index, or a chosen list.
#[derive(Clone, Copy, Debug)]
pub enum SearchParts<'b> {
    /// Search across all indices.
    All,
    /// Search the named indices.
    Index(&'b [&'b str]),
}

impl<'b> SearchParts<'b> {
    /// The byte sequences of the path parts this selection carries.
    pub open spec fn parts_view(self) -> Seq<Seq<u8>> {
        match self {
            SearchParts::All => Seq::empty(),
            SearchParts::Index(idx) => parts_bytes(idx@),
        }
    }

    /// The URL path of the search endpoint for these parts.
    pub fn url(&self) -> (r: String)
        ensures
            r@ == path_chars(api_path_bytes(self.parts_view(), search_op_bytes())),
    {
        let op = "_search";
        proof {
            reveal_strlit("_search");
            assert(vstd::string::is_ascii(op));
            vstd::string::is_ascii_spec_bytes(op);
            assert(op.spec_bytes() =~= search_op_bytes());
        }
        match self {
            SearchParts::All => {
                let mut out: Vec<u8> = Vec::new();
                out.push(SLASH);
                append_bytes(&mut out, op.as_bytes());
                proof {
                    assert(out@ =~= api_path_bytes(self.parts_view(), search_op_bytes()));
                }
                ascii_to_string(out)
            },
            SearchParts::Index(idx) => api_path(idx, op),
        }
    }
}


/// Percent-decoding a built path's middle segment gives back exactly the
/// comma-joined parts it was built from: encoding loses nothing, and the
/// comma separators survive literally.
pub proof fn lemma_parts_round_trip(parts: Seq<Seq<u8>>)
    ensures
        crate::encoding::decode_bytes(encode_part_bytes(joined_bytes(parts))) == joined_bytes(
            parts,
        ),
{
    crate::encoding::lemma_decode_encode(Literals::UrlPart, joined_bytes(parts));
}
} // verus!
