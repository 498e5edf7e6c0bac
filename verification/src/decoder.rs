//! The decoder of a session over bytes held in memory.

use crate::drive::{input_of, lemma_run_decodes, next_input, run};
use crate::error::DecodeError;
use crate::framer::Framer;
use crate::parser::{Parser, Request, Step};
use crate::stream::parse_value;
use crate::value::{Resp, Value};
use vstd::prelude::*;
use vstd::slice::slice_subrange;

verus! {

/// A streaming decoder. It owns the bytes of the stream and reads one value
/// off their head at each call of [`Decoder::decode`].
#[derive(Debug)]
pub struct Decoder {
    buf_bulk: bool,
    source: Vec<u8>,
    pos: usize,
}

impl Decoder {
    #[verifier::type_invariant]
    spec fn inv(&self) -> bool {
        self.pos <= self.source@.len()
    }

    /// Whether bulk payloads are kept as raw bytes.
    pub closed spec fn raw(&self) -> bool {
        self.buf_bulk
    }

    /// The bytes of the stream that have not been read.
    pub closed spec fn remaining(&self) -> Seq<u8> {
        self.source@.skip(self.pos as int)
    }

    /// How many bytes of the stream have been read.
    pub closed spec fn consumed(&self) -> nat {
        self.pos as nat
    }

    /// Creates a decoder of the stream `source`. It reads bulk payloads as
    /// UTF-8 text.
    pub fn new(source: Vec<u8>) -> (decoder: Decoder)
        ensures
            !decoder.raw(),
            decoder.remaining() == source@,
            decoder.consumed() == 0,
    {
        Decoder { buf_bulk: false, source, pos: 0 }
    }

    /// Creates a decoder of the stream `source` that keeps bulk payloads as
    /// raw bytes.
    pub fn with_buf_bulk(source: Vec<u8>) -> (decoder: Decoder)
        ensures
            decoder.raw(),
            decoder.remaining() == source@,
            decoder.consumed() == 0,
    {
        Decoder { buf_bulk: true, source, pos: 0 }
    }

    /// How many bytes of the stream have been read.
    pub fn position(&self) -> (n: usize)
        ensures
            n == self.consumed(),
    {
        self.pos
    }

    /// Takes what serves `request` from the head of the stream.
    fn read(&mut self, request: Request) -> (input: Vec<u8>)
        ensures
            input@ == input_of(request, old(self).remaining()),
            input@.len() <= old(self).remaining().len(),
            final(self).remaining() == old(self).remaining().skip(input@.len() as int),
            final(self).consumed() == old(self).consumed() + input@.len(),
            final(self).raw() == old(self).raw(),
    {
        proof {
            use_type_invariant(&*self);
        }
        let ghost rem = self.remaining();
        let mut framer = Framer::new(request);
        let unread = slice_subrange(self.source.as_slice(), self.pos, self.source.len());
        assert(unread@ =~= rem);
        assert(Seq::<u8>::empty() + rem =~= rem);
        let taken = framer.push(unread);
        self.pos = self.pos + taken;
        let input = framer.into_input();
        proof {
            assert(input@ =~= rem.take(taken as int));
            assert(self.remaining() =~= rem.skip(input@.len() as int));
        }
        input
    }

    /// Reads the value at the head of the stream: the one that the grammar
    /// finds there, or the error that it finds there. Either way the bytes
    /// that the grammar takes are taken from the stream.
    pub fn decode(&mut self) -> (res: Result<Value, DecodeError>)
        ensures
            final(self).raw() == old(self).raw(),
            final(self).remaining() == old(self).remaining().skip(
                parse_value(old(self).remaining(), old(self).raw()).consumed as int,
            ),
            final(self).consumed() == old(self).consumed() + parse_value(
                old(self).remaining(),
                old(self).raw(),
            ).consumed,
            res matches Ok(v) ==> parse_value(old(self).remaining(), old(self).raw()).result == Ok::<
                Resp,
                DecodeError,
            >(v@),
            res matches Err(e) ==> parse_value(old(self).remaining(), old(self).raw()).result
                == Err::<Resp, DecodeError>(e),
    {
        let ghost start = self.remaining();
        let ghost raw = self.raw();
        let ghost taken: nat = 0;
        let mut parser = Parser::new(self.buf_bulk);
        proof {
            lemma_run_decodes(start, raw);
            assert(start.skip(0) =~= start);
        }
        loop
            invariant
                parser@.raw == raw,
                self.raw() == raw,
                taken <= start.len(),
                self.remaining() == start.skip(taken as int),
                self.consumed() == old(self).consumed() + taken,
                start == old(self).remaining(),
                raw == old(self).raw(),
                parse_value(start, raw) == run(parser@, self.remaining()).after(taken),
            decreases start.len() - taken,
        {
            let ghost rem = self.remaining();
            let ghost before = parser@;
            let input = self.read(parser.request());
            proof {
                assert(input@ == next_input(before, rem));
                assert(input@.len() <= rem.len());
                assert(start.skip(taken as int).skip(input@.len() as int) =~= start.skip(
                    (taken + input@.len()) as int,
                ));
            }
            let ghost n = input@.len();
            match parser.feed(input) {
                Step::Done(v) => {
                    return Ok(v);
                },
                Step::Failed(e) => {
                    return Err(e);
                },
                Step::More => {
                    proof {
                        assert(n > 0);
                        taken = taken + n;
                    }
                },
            }
        }
    }
}

} // verus!
