//! Wire framing of request bodies.
//!
//! A body is one serialized JSON document, an ordered bulk of serialized
//! documents framed as newline-delimited JSON, or raw bytes passed through
//! unchanged. Serializing a domain value into document bytes is a
//! collaborator's job; this module owns only the framing.

use crate::TransportError;
use crate::parts::append_bytes;
use vstd::prelude::*;

verus! {

pub const NEWLINE: u8 = 10;

/// A request body.
pub enum Body {
    /// A single serialized JSON document.
    Json(Vec<u8>),
    /// An ordered bulk of serialized JSON documents. Order is significant:
    /// later operations may depend on earlier ones having been applied.
    NdJson(Vec<Vec<u8>>),
    /// Raw bytes; the caller answers for the content type.
    Raw(Vec<u8>),
}

/// Newline-delimited framing: each document in order, each followed by
/// exactly one newline terminator.
pub open spec fn ndjson_bytes(docs: Seq<Seq<u8>>) -> Seq<u8>
    decreases docs.len(),
{
    if docs.len() == 0 {
        Seq::empty()
    } else {
        docs[0] + seq![NEWLINE] + ndjson_bytes(docs.drop_first())
    }
}

/// Framing one more document appends it and one newline.
pub proof fn lemma_ndjson_push(docs: Seq<Seq<u8>>, d: Seq<u8>)
    ensures
        ndjson_bytes(docs.push(d)) == ndjson_bytes(docs) + d + seq![NEWLINE],
    decreases docs.len(),
{
    let whole = docs.push(d);
    if docs.len() == 0 {
        assert(whole.len() == 1);
        assert(whole[0] == d);
        assert(whole.drop_first() =~= Seq::<Seq<u8>>::empty());
        assert(ndjson_bytes(Seq::<Seq<u8>>::empty()) =~= Seq::<u8>::empty());
        assert(ndjson_bytes(whole) =~= whole[0] + seq![NEWLINE] + ndjson_bytes(
            whole.drop_first(),
        ));
        assert(ndjson_bytes(whole) =~= ndjson_bytes(docs) + d + seq![NEWLINE]);
    } else {
        assert(whole.drop_first() =~= docs.drop_first().push(d));
        lemma_ndjson_push(docs.drop_first(), d);
        assert(ndjson_bytes(whole) =~= ndjson_bytes(docs) + d + seq![NEWLINE]);
    }
}

impl Body {
    /// The document byte sequences of a bulk body.
    pub open spec fn docs_view(docs: Seq<Vec<u8>>) -> Seq<Seq<u8>> {
        docs.map_values(|d: Vec<u8>| d@)
    }

    /// What the body puts on the wire: its bytes, or the error a bulk with
    /// no documents earns.
    pub open spec fn wire_view(self) -> Result<Seq<u8>, TransportError> {
        match self {
            Body::Json(doc) => Ok(doc@),
            Body::NdJson(docs) => if docs@.len() == 0 {
                Err(TransportError::EmptyBulkBody)
            } else {
                Ok(ndjson_bytes(Self::docs_view(docs@)))
            },
            Body::Raw(bytes) => Ok(bytes@),
        }
    }

    /// Serializes the body for the wire. A bulk with no documents is a
    /// caller error (`EmptyBulkBody`), never a silently accepted no-op.
    pub fn encode(&self) -> (r: Result<Vec<u8>, TransportError>)
        ensures
            r is Ok <==> self.wire_view() is Ok,
            r is Ok ==> r->Ok_0@ == self.wire_view()->Ok_0,
            r is Err ==> r->Err_0 == self.wire_view()->Err_0,
    {
        match self {
            Body::Json(doc) => {
                let mut out: Vec<u8> = Vec::new();
                append_bytes(&mut out, doc.as_slice());
                proof {
                    assert(out@ =~= doc@);
                }
                Ok(out)
            },
            Body::NdJson(docs) => {
                if docs.len() == 0 {
                    return Err(TransportError::EmptyBulkBody);
                }
                let ghost views = Self::docs_view(docs@);
                let mut out: Vec<u8> = Vec::new();
                let mut i: usize = 0;
                proof {
                    assert(views.take(0) =~= Seq::<Seq<u8>>::empty());
                    assert(out@ =~= ndjson_bytes(views.take(0)));
                }
                while i < docs.len()
                    invariant
                        i <= docs@.len(),
                        out@ == ndjson_bytes(views.take(i as int)),
                        views == Self::docs_view(docs@),
                    decreases docs@.len() - i,
                {
                    append_bytes(&mut out, docs[i].as_slice());
                    out.push(NEWLINE);
                    proof {
                        lemma_ndjson_push(views.take(i as int), views[i as int]);
                        assert(views.take(i + 1) =~= views.take(i as int).push(views[i as int]));
                        assert(out@ =~= ndjson_bytes(views.take(i + 1)));
                    }
                    i = i + 1;
                }
                proof {
                    assert(views.take(views.len() as int) =~= views);
                }
                Ok(out)
            },
            Body::Raw(bytes) => {
                let mut out: Vec<u8> = Vec::new();
                append_bytes(&mut out, bytes.as_slice());
                proof {
                    assert(out@ =~= bytes@);
                }
                Ok(out)
            },
        }
    }

    /// The content type the transport sets for the body, if any. A raw body
    /// leaves the content type entirely to the caller.
    pub fn content_type(&self) -> (r: Option<&'static str>)
        ensures
            self is Json ==> r is Some && r->0@ == "application/json"@,
            self is NdJson ==> r is Some && r->0@ == "application/x-ndjson"@,
            self is Raw ==> r is None,
    {
        match self {
            Body::Json(_) => Some("application/json"),
            Body::NdJson(_) => Some("application/x-ndjson"),
            Body::Raw(_) => None,
        }
    }
}

} // verus!
