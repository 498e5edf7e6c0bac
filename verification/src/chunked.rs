//! The decoder of a session over a stream that is held as the chunks in which
//! it arrived.

use crate::drive::{input_of, lemma_run_decodes, next_input, run};
use crate::error::DecodeError;
use crate::framer::{complete, lemma_complete, Framer};
use crate::parser::{Parser, Request, Step};
use crate::stream::parse_value;
use crate::value::{Resp, Value};
use vstd::prelude::*;
use vstd::slice::slice_subrange;

verus! {

/// The bytes of the chunks from index `from` on, in order.
pub open spec fn joined(chunks: Seq<Vec<u8>>, from: int) -> Seq<u8>
    decreases chunks.len() - from,
{
    if from < 0 || from >= chunks.len() {
        Seq::empty()
    } else {
        chunks[from]@ + joined(chunks, from + 1)
    }
}

/// One chunk holds its own bytes.
pub proof fn lemma_joined_one(whole: Vec<u8>)
    ensures
        joined(seq![whole], 0) == whole@,
{
    assert(joined(seq![whole], 1) =~= Seq::<u8>::empty());
    assert(joined(seq![whole], 0) =~= whole@);
}

/// The bytes of chunks that follow one another are the bytes of the first
/// and then those of the second.
pub proof fn lemma_joined_append(a: Seq<Vec<u8>>, b: Seq<Vec<u8>>, from: int)
    requires
        0 <= from <= a.len(),
    ensures
        joined(a + b, from) == joined(a, from) + joined(b, 0),
    decreases a.len() - from,
{
    if from < a.len() {
        lemma_joined_append(a, b, from + 1);
        assert((a + b)[from] == a[from]);
        assert(joined(a + b, from) =~= joined(a, from) + joined(b, 0));
    } else {
        lemma_joined_shift(a, b, 0);
        assert(joined(a, from) =~= Seq::<u8>::empty());
        assert(joined(a + b, from) =~= joined(a, from) + joined(b, 0));
    }
}

/// The bytes of chunks do not depend on what stands before them.
proof fn lemma_joined_shift(a: Seq<Vec<u8>>, b: Seq<Vec<u8>>, from: int)
    requires
        0 <= from <= b.len(),
    ensures
        joined(a + b, a.len() + from) == joined(b, from),
    decreases b.len() - from,
{
    if from < b.len() {
        lemma_joined_shift(a, b, from + 1);
        assert((a + b)[a.len() + from] == b[from]);
    }
}

/// A streaming decoder over chunks. It reads as [`crate::Decoder`] reads the
/// bytes of the chunks in one piece: where the chunks are cut does not
/// matter.
#[derive(Debug)]
pub struct ChunkDecoder {
    buf_bulk: bool,
    chunks: Vec<Vec<u8>>,
    chunk: usize,
    offset: usize,
}

impl ChunkDecoder {
    #[verifier::type_invariant]
    spec fn inv(&self) -> bool {
        &&& self.chunk <= self.chunks@.len()
        &&& self.chunk < self.chunks@.len() ==> self.offset <= self.chunks@[self.chunk as int]@.len()
        &&& self.chunk == self.chunks@.len() ==> self.offset == 0
    }

    /// Whether bulk payloads are kept as raw bytes.
    pub closed spec fn raw(&self) -> bool {
        self.buf_bulk
    }

    /// The bytes of the stream that have not been read.
    pub closed spec fn remaining(&self) -> Seq<u8> {
        joined(self.chunks@, self.chunk as int).skip(self.offset as int)
    }

    /// Creates a decoder of the stream that arrived as `chunks`. It reads
    /// bulk payloads as UTF-8 text.
    pub fn new(chunks: Vec<Vec<u8>>) -> (decoder: ChunkDecoder)
        ensures
            !decoder.raw(),
            decoder.remaining() == joined(chunks@, 0),
    {
        let decoder = ChunkDecoder { buf_bulk: false, chunks, chunk: 0, offset: 0 };
        assert(decoder.remaining() =~= joined(chunks@, 0));
        decoder
    }

    /// Creates a decoder of the stream that arrived as `chunks`, which keeps
    /// bulk payloads as raw bytes.
    pub fn with_buf_bulk(chunks: Vec<Vec<u8>>) -> (decoder: ChunkDecoder)
        ensures
            decoder.raw(),
            decoder.remaining() == joined(chunks@, 0),
    {
        let decoder = ChunkDecoder { buf_bulk: true, chunks, chunk: 0, offset: 0 };
        assert(decoder.remaining() =~= joined(chunks@, 0));
        decoder
    }

    /// Takes what serves `request` from the head of the stream, chunk by
    /// chunk.
    #[verifier::rlimit(50)]
    fn read(&mut self, request: Request) -> (input: Vec<u8>)
        ensures
            input@ == input_of(request, old(self).remaining()),
            input@.len() <= old(self).remaining().len(),
            final(self).remaining() == old(self).remaining().skip(input@.len() as int),
            final(self).raw() == old(self).raw(),
    {
        proof {
            use_type_invariant(&*self);
        }
        let ghost rem = self.remaining();
        let mut framer = Framer::new(request);
        assert(framer@.gathered + rem =~= rem);
        while self.chunk < self.chunks.len() && !framer.is_complete()
            invariant
                self.chunk <= self.chunks@.len(),
                self.chunk < self.chunks@.len() ==> self.offset <= self.chunks@[self.chunk as int]@.len(),
                self.chunk == self.chunks@.len() ==> self.offset == 0,
                self.buf_bulk == old(self).buf_bulk,
                framer@.wf(),
                framer@.request == request,
                framer@.gathered + self.remaining() == rem,
            decreases
                    self.chunks@.len() - self.chunk + (if complete(request, framer@.gathered) {
                        0int
                    } else {
                        1int
                    }),
        {
            let ghost had = framer@.gathered;
            let ghost left = self.remaining();
            let ghost next = joined(self.chunks@, self.chunk + 1);
            let chunk = &self.chunks[self.chunk];
            let unread = slice_subrange(chunk.as_slice(), self.offset, chunk.len());
            assert(left =~= unread@ + next);
            let taken = framer.push(unread);
            if framer.is_complete() {
                self.offset = self.offset + taken;
                assert(self.remaining() =~= unread@.skip(taken as int) + next);
                assert(framer@.gathered + self.remaining() =~= had + left);
            } else {
                self.offset = 0;
                self.chunk = self.chunk + 1;
                assert(self.remaining() =~= next);
                assert(unread@.take(taken as int) =~= unread@);
                assert(framer@.gathered + self.remaining() =~= had + left);
            }
        }
        proof {
            if complete(request, framer@.gathered) {
                lemma_complete(request, framer@.gathered, self.remaining());
            } else {
                assert(self.remaining() =~= Seq::<u8>::empty());
                assert(framer@.gathered + self.remaining() =~= framer@.gathered);
            }
            assert(self.remaining() =~= rem.skip(framer@.gathered.len() as int));
        }
        framer.into_input()
    }

    /// Reads the value at the head of the stream: the one that the grammar
    /// finds in the bytes of the chunks, or the error that it finds there.
    /// Either way the bytes that the grammar takes are taken from the
    /// stream.
    pub fn decode(&mut self) -> (res: Result<Value, DecodeError>)
        ensures
            final(self).raw() == old(self).raw(),
            final(self).remaining() == old(self).remaining().skip(
                parse_value(old(self).remaining(), old(self).raw()).consumed as int,
            ),
            res matches Ok(v) ==> parse_value(old(self).remaining(), old(self).raw()).result == Ok::<
                Resp,
                DecodeError,
            >(v@),
            res matches Err(e) ==> parse_value(old(self).remaining(), old(self).raw()).result
                == Err::<Resp, DecodeError>(e),
    {
        let ghost start = self.remaining();
        let ghost raw = self.raw();
        let ghost taken: nat = 0;
        let mut parser = Parser::new(self.buf_bulk);
        proof {
            lemma_run_decodes(start, raw);
            assert(start.skip(0) =~= start);
        }
        loop
            invariant
                parser@.raw == raw,
                self.raw() == raw,
                taken <= start.len(),
                self.remaining() == start.skip(taken as int),
                start == old(self).remaining(),
                raw == old(self).raw(),
                parse_value(start, raw) == run(parser@, self.remaining()).after(taken),
            decreases start.len() - taken,
        {
            let ghost rem = self.remaining();
            let ghost before = parser@;
            let input = self.read(parser.request());
            proof {
                assert(input@ == next_input(before, rem));
                assert(start.skip(taken as int).skip(input@.len() as int) =~= start.skip(
                    (taken + input@.len()) as int,
                ));
            }
            let ghost n = input@.len();
            match parser.feed(input) {
                Step::Done(v) => {
                    return Ok(v);
                },
                Step::Failed(e) => {
                    return Err(e);
                },
                Step::More => {
                    proof {
                        assert(n > 0);
                        taken = taken + n;
                    }
                },
            }
        }
    }
}

} // verus!
