//! Needles: the in-memory form of one stored object.
//!
//! A needle pairs a header, which announces the body length, with the body
//! itself. A body is either one contiguous buffer (small objects) or an
//! ordered sequence of buffers (large objects delivered chunk by chunk),
//! never both.

use crate::codec::{spec_total_length, NEEDLE_HEADER_LENGTH};
use vstd::prelude::*;

verus! {

/// Upper bound on one delivered chunk of a large body: one mebibyte.
pub const CHUNK_SIZE: usize = 1024 * 1024;

/// The fixed-size needle header: the body length it announces.
#[derive(Clone, Copy, Debug, PartialEq, Eq, Structural)]
pub struct NeedleHeader {
    pub body_length: u32,
}

/// A needle body: one buffer, or an ordered sequence of buffers.
#[derive(Debug)]
pub enum NeedleBody {
    SinglePart(Vec<u8>),
    MultiParts(Vec<Vec<u8>>),
}

/// One stored object: a header plus its body.
#[derive(Debug)]
pub struct Needle {
    pub header: NeedleHeader,
    pub body: NeedleBody,
}

/// The mathematical shape of a needle: the announced body length and the
/// ordered buffers that make up the body.
pub struct NeedleView {
    pub body_length: u32,
    pub parts: Seq<Seq<u8>>,
}

/// All bytes of `parts`, in order.
pub open spec fn concat_parts(parts: Seq<Seq<u8>>) -> Seq<u8>
    decreases parts.len(),
{
    if parts.len() == 0 {
        Seq::empty()
    } else {
        parts.first() + concat_parts(parts.drop_first())
    }
}

/// `body`, cut into chunks of `CHUNK_SIZE` bytes; the final chunk is
/// shorter when the length is not a multiple of the chunk size.
pub open spec fn chunk_parts(body: Seq<u8>) -> Seq<Seq<u8>>
    decreases body.len(),
{
    if body.len() == 0 {
        Seq::empty()
    } else if body.len() <= CHUNK_SIZE {
        seq![body]
    } else {
        seq![body.take(CHUNK_SIZE as int)] + chunk_parts(body.skip(CHUNK_SIZE as int))
    }
}

impl NeedleView {
    /// The body as one byte sequence.
    pub open spec fn body_bytes(self) -> Seq<u8> {
        concat_parts(self.parts)
    }

    /// The header announces exactly the bytes the body delivers.
    pub open spec fn consistent(self) -> bool {
        self.body_bytes().len() == self.body_length
    }

    /// Bytes the whole record takes on disk: header plus announced body.
    pub open spec fn total_length(self) -> int {
        spec_total_length(self.body_length)
    }
}

impl View for Needle {
    type V = NeedleView;

    open spec fn view(&self) -> NeedleView {
        NeedleView {
            body_length: self.header.body_length,
            parts: match self.body {
                NeedleBody::SinglePart(part) => seq![part@],
                NeedleBody::MultiParts(parts) => parts@.map_values(|p: Vec<u8>| p@),
            },
        }
    }
}

impl Needle {
    /// Wrap one contiguous body into a needle whose header announces its
    /// exact length.
    pub fn new(body: Vec<u8>) -> (r: Needle)
        requires
            body@.len() <= u32::MAX,
        ensures
            r@.body_length == body@.len(),
            r@.parts == seq![body@],
            r@.consistent(),
    {
        let length: u32 = body.len() as u32;
        let r = Needle { header: NeedleHeader { body_length: length }, body: NeedleBody::SinglePart(body) };
        proof {
            lemma_concat_parts_singleton(r@.parts.first());
            assert(r@.parts =~= seq![r@.parts.first()]);
        }
        r
    }

    /// Wrap an ordered sequence of buffers into a needle announcing
    /// `body_length` bytes in total. The announcement is taken on faith:
    /// a mismatched one is caught when the needle is written.
    pub fn from_parts(body_length: u32, parts: Vec<Vec<u8>>) -> (r: Needle)
        ensures
            r@.body_length == body_length,
            r@.parts == parts@.map_values(|p: Vec<u8>| p@),
    {
        Needle { header: NeedleHeader { body_length }, body: NeedleBody::MultiParts(parts) }
    }

    /// Bytes this needle's record will take on disk, per its header.
    pub fn total_length(&self) -> (r: u64)
        ensures
            r == self@.total_length(),
    {
        NEEDLE_HEADER_LENGTH + self.header.body_length as u64
    }

    /// Append every body buffer, in order, to `out`; the count of bytes
    /// appended is the received length of the body.
    pub fn append_body_to(&self, out: &mut Vec<u8>)
        ensures
            final(out)@ == old(out)@ + self@.body_bytes(),
    {
        match &self.body {
            NeedleBody::SinglePart(part) => {
                proof {
                    lemma_concat_parts_singleton(part@);
                    assert(self@.parts =~= seq![part@]);
                }
                out.extend_from_slice(part.as_slice());
                assert(out@ =~= old(out)@ + self@.body_bytes());
            },
            NeedleBody::MultiParts(parts) => {
                let ghost views = parts@.map_values(|p: Vec<u8>| p@);
                let mut i: usize = 0;
                while i < parts.len()
                    invariant
                        0 <= i <= parts.len(),
                        views == parts@.map_values(|p: Vec<u8>| p@),
                        out@ == old(out)@ + concat_parts(views.take(i as int)),
                    decreases parts.len() - i,
                {
                    let part: &Vec<u8> = &parts[i];
                    out.extend_from_slice(part.as_slice());
                    proof {
                        lemma_concat_parts_push(views.take(i as int), views[i as int]);
                        assert(views.take(i as int).push(views[i as int])
                            =~= views.take(i + 1 as int));
                        assert(out@ =~= old(out)@ + concat_parts(views.take(i + 1 as int)));
                    }
                    i = i + 1;
                }
                proof {
                    assert(views.take(parts.len() as int) =~= views);
                    assert(self@.body_bytes() == concat_parts(views));
                }
            },
        }
    }
}

/// Cut a body into the chunks a large read delivers: `CHUNK_SIZE` bytes
/// apiece, in order, the final chunk shorter when the body length is not
/// a multiple of the chunk size.
pub fn chunk_vec(body: Vec<u8>) -> (r: Vec<Vec<u8>>)
    ensures
        r@.map_values(|p: Vec<u8>| p@) == chunk_parts(body@),
{
    let mut parts: Vec<Vec<u8>> = Vec::new();
    let mut pos: usize = 0;
    let length = body.len();
    proof {
        assert(body@.skip(0) =~= body@);
        assert(parts@.map_values(|p: Vec<u8>| p@) + chunk_parts(body@.skip(0)) =~= chunk_parts(
            body@,
        ));
    }
    while pos < length
        invariant
            0 <= pos <= length,
            length == body@.len(),
            chunk_parts(body@) == parts@.map_values(|p: Vec<u8>| p@) + chunk_parts(
                body@.skip(pos as int),
            ),
        decreases length - pos,
    {
        let end = if length - pos > CHUNK_SIZE {
            pos + CHUNK_SIZE
        } else {
            length
        };
        let chunk = vstd::slice::slice_to_vec(
            vstd::slice::slice_subrange(body.as_slice(), pos, end),
        );
        proof {
            let rest = body@.skip(pos as int);
            assert(rest.len() == length - pos);
            if length - pos > CHUNK_SIZE {
                assert(rest.take(CHUNK_SIZE as int) =~= body@.subrange(pos as int, end as int));
                assert(rest.skip(CHUNK_SIZE as int) =~= body@.skip(end as int));
            } else {
                assert(rest =~= body@.subrange(pos as int, end as int));
                assert(chunk_parts(rest) =~= seq![rest]);
                assert(body@.skip(end as int) =~= Seq::<u8>::empty());
                assert(chunk_parts(Seq::<u8>::empty()) =~= Seq::<Seq<u8>>::empty());
            }
            assert(parts@.push(chunk).map_values(|p: Vec<u8>| p@) =~= parts@.map_values(
                |p: Vec<u8>| p@,
            ).push(chunk@));
            assert(parts@.map_values(|p: Vec<u8>| p@).push(chunk@) + chunk_parts(
                body@.skip(end as int),
            ) =~= parts@.map_values(|p: Vec<u8>| p@) + chunk_parts(body@.skip(pos as int)));
        }
        parts.push(chunk);
        pos = end;
    }
    proof {
        assert(body@.skip(pos as int) =~= Seq::<u8>::empty());
        assert(chunk_parts(Seq::<u8>::empty()) =~= Seq::<Seq<u8>>::empty());
        assert(parts@.map_values(|p: Vec<u8>| p@) =~= chunk_parts(body@));
    }
    parts
}

/// A single buffer concatenates to itself.
pub proof fn lemma_concat_parts_singleton(part: Seq<u8>)
    ensures
        concat_parts(seq![part]) == part,
{
    assert(seq![part].drop_first() =~= Seq::<Seq<u8>>::empty());
    assert(concat_parts(Seq::<Seq<u8>>::empty()) =~= Seq::<u8>::empty());
    assert(concat_parts(seq![part]) =~= part);
}

/// Appending one more buffer extends the concatenation by exactly that
/// buffer.
pub proof fn lemma_concat_parts_push(parts: Seq<Seq<u8>>, part: Seq<u8>)
    ensures
        concat_parts(parts.push(part)) == concat_parts(parts) + part,
    decreases parts.len(),
{
    if parts.len() == 0 {
        assert(parts.push(part) =~= seq![part]);
        lemma_concat_parts_singleton(part);
        assert(concat_parts(parts.push(part)) =~= concat_parts(parts) + part);
    } else {
        assert(parts.push(part).drop_first() =~= parts.drop_first().push(part));
        lemma_concat_parts_push(parts.drop_first(), part);
        assert(concat_parts(parts.push(part)) =~= concat_parts(parts) + part);
    }
}

/// Chunking never loses, reorders or duplicates a byte: the chunks of a
/// body concatenate back to exactly that body, and every chunk is a
/// non-empty buffer of at most `CHUNK_SIZE` bytes.
pub proof fn lemma_chunk_parts_concat(body: Seq<u8>)
    ensures
        concat_parts(chunk_parts(body)) == body,
        forall|i: int|
            0 <= i < chunk_parts(body).len() ==> 0 < #[trigger] chunk_parts(body)[i].len()
                <= CHUNK_SIZE,
    decreases body.len(),
{
    if body.len() == 0 {
        assert(concat_parts(chunk_parts(body)) =~= body);
    } else if body.len() <= CHUNK_SIZE {
        lemma_concat_parts_singleton(body);
        assert(chunk_parts(body) =~= seq![body]);
    } else {
        let head = body.take(CHUNK_SIZE as int);
        let tail = body.skip(CHUNK_SIZE as int);
        lemma_chunk_parts_concat(tail);
        assert(chunk_parts(body).drop_first() =~= chunk_parts(tail));
        assert(concat_parts(chunk_parts(body)) =~= head + tail);
        assert(head + tail =~= body);
    }
}

} // verus!
