//! Framed transcript messages: a tagged payload under the Spartan frame
//! domain, and the canonical encoding of field-element lists.

use vstd::arithmetic::power2::*;
use vstd::prelude::*;
use vstd::string::StringSliceAdditionalSpecFns;

use crate::binding::{extend_frame_len, frame_len, lemma_le_bytes_injective};

verus! {

/// Domain separator that opens every Spartan transcript frame.
pub const SPARTAN_TRANSCRIPT_FRAME_DOMAIN: &'static str = "f2z/spartan/transcript-frame/v1";

/// Tag of a framed list of field elements.
pub const FIELD_ELEMENTS_TAG: &'static str = "field-elements";


/// The frame of a tagged message: the frame domain, the tag length, the
/// tag, the payload length, the payload.
pub open spec fn frame_bytes(tag: Seq<u8>, payload: Seq<u8>) -> Seq<u8> {
    SPARTAN_TRANSCRIPT_FRAME_DOMAIN.spec_bytes() + frame_len(tag.len()) + tag + frame_len(
        payload.len(),
    ) + payload
}

fn extend_from_slice(frame: &mut Vec<u8>, bytes: &[u8])
    ensures
        final(frame)@ == old(frame)@ + bytes@,
{
    let ghost start = frame@;
    for i in 0..bytes.len()
        invariant
            frame@ == start + bytes@.take(i as int),
    {
        frame.push(bytes[i]);
        assert(bytes@.take(i + 1) =~= bytes@.take(i as int).push(bytes[i as int]));
    }
    assert(bytes@.take(bytes.len() as int) =~= bytes@);
}

/// A borrowed tagged transcript message.
pub struct SpartanMessage<'a> {
    pub tag: &'a [u8],
    pub payload: &'a [u8],
}

impl SpartanMessage<'_> {
    /// The log kind of this message.
    pub fn kind(&self) -> (kind: &'static str)
        ensures
            kind@ == "spartan.message"@,
    {
        "spartan.message"
    }

    /// The single framed byte string the message absorbs:
    /// `domain | len(tag) | tag | len(payload) | payload`.
    pub fn frame(&self) -> (frame: Vec<u8>)
        ensures
            frame@ == frame_bytes(self.tag@, self.payload@),
    {
        let mut frame: Vec<u8> = Vec::new();
        extend_from_slice(&mut frame, SPARTAN_TRANSCRIPT_FRAME_DOMAIN.as_bytes());
        extend_frame_len(&mut frame, self.tag.len());
        extend_from_slice(&mut frame, self.tag);
        extend_frame_len(&mut frame, self.payload.len());
        extend_from_slice(&mut frame, self.payload);
        frame
    }
}

/// Distinct messages have distinct frames: the frame determines the tag
/// and the payload.
pub proof fn lemma_frame_injective(t1: Seq<u8>, p1: Seq<u8>, t2: Seq<u8>, p2: Seq<u8>)
    requires
        t1.len() < pow2(64),
        t2.len() < pow2(64),
        p1.len() < pow2(64),
        p2.len() < pow2(64),
        frame_bytes(t1, p1) == frame_bytes(t2, p2),
    ensures
        t1 == t2,
        p1 == p2,
{
    let d = SPARTAN_TRANSCRIPT_FRAME_DOMAIN.spec_bytes();
    let dl = d.len() as int;
    let f1 = frame_bytes(t1, p1);
    let f2 = frame_bytes(t2, p2);
    assert(frame_len(t1.len()) =~= f1.subrange(dl, dl + 8));
    assert(frame_len(t2.len()) =~= f2.subrange(dl, dl + 8));
    lemma_le_bytes_injective(t1.len(), t2.len(), 8);
    let tl = t1.len() as int;
    assert(t1 =~= f1.subrange(dl + 8, dl + 8 + tl));
    assert(t2 =~= f2.subrange(dl + 8, dl + 8 + tl));
    assert(frame_len(p1.len()) =~= f1.subrange(dl + 8 + tl, dl + 16 + tl));
    assert(frame_len(p2.len()) =~= f2.subrange(dl + 8 + tl, dl + 16 + tl));
    lemma_le_bytes_injective(p1.len(), p2.len(), 8);
    assert(p1 =~= f1.subrange(dl + 16 + tl, f1.len() as int));
    assert(p2 =~= f2.subrange(dl + 16 + tl, f2.len() as int));
}

/// The encodings of a list of field elements: the count, then each
/// canonical encoding prefixed by its length.
pub open spec fn elements_payload(encodings: Seq<Vec<u8>>) -> Seq<u8> {
    frame_len(encodings.len()) + elements_body(encodings)
}

/// The length-prefixed encodings, in order.
pub open spec fn elements_body(encodings: Seq<Vec<u8>>) -> Seq<u8>
    decreases encodings.len(),
{
    if encodings.len() == 0 {
        Seq::empty()
    } else {
        elements_body(encodings.drop_last()) + frame_len(encodings.last()@.len())
            + encodings.last()@
    }
}

fn field_elements_frame(encodings: &[Vec<u8>]) -> (frame: Vec<u8>)
    ensures
        frame@ == frame_bytes(FIELD_ELEMENTS_TAG.spec_bytes(), elements_payload(encodings@)),
{
    let mut payload: Vec<u8> = Vec::new();
    extend_frame_len(&mut payload, encodings.len());
    for i in 0..encodings.len()
        invariant
            payload@ == frame_len(encodings@.len()) + elements_body(encodings@.take(i as int)),
    {
        let ghost before = payload@;
        extend_frame_len(&mut payload, encodings[i].len());
        extend_from_slice(&mut payload, encodings[i].as_slice());
        assert(encodings@.take(i + 1).drop_last() =~= encodings@.take(i as int));
        assert(payload@ =~= frame_len(encodings@.len()) + elements_body(encodings@.take(i + 1)));
    }
    assert(encodings@.take(encodings.len() as int) =~= encodings@);
    let message = SpartanMessage { tag: FIELD_ELEMENTS_TAG.as_bytes(), payload: payload.as_slice() };
    message.frame()
}

/// A borrowed list of field elements, held as their canonical encodings.
pub struct SpartanFieldElements<'a>(pub &'a [Vec<u8>]);

impl SpartanFieldElements<'_> {
    /// The log kind of this message.
    pub fn kind(&self) -> (kind: &'static str)
        ensures
            kind@ == "spartan.field_elements"@,
    {
        "spartan.field_elements"
    }

    /// The framed message: the element list under the field-elements tag.
    pub fn frame(&self) -> (frame: Vec<u8>)
        ensures
            frame@ == frame_bytes(FIELD_ELEMENTS_TAG.spec_bytes(), elements_payload(self.0@)),
    {
        field_elements_frame(self.0)
    }
}

/// A borrowed sumcheck round polynomial, its coefficients held as their
/// canonical encodings, constant term first.
pub struct SpartanRoundPolynomial<'a>(pub &'a [Vec<u8>]);

impl SpartanRoundPolynomial<'_> {
    /// The log kind of this message.
    pub fn kind(&self) -> (kind: &'static str)
        ensures
            kind@ == "sumcheck.round_polynomial"@,
    {
        "sumcheck.round_polynomial"
    }

    /// The framed message: the coefficients as a field-element list.
    pub fn frame(&self) -> (frame: Vec<u8>)
        ensures
            frame@ == frame_bytes(FIELD_ELEMENTS_TAG.spec_bytes(), elements_payload(self.0@)),
    {
        field_elements_frame(self.0)
    }
}

} // verus!
