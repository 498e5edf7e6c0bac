//! Gathering what the parser asks for from the chunks in which a byte source
//! hands out its bytes.

use crate::drive::input_of;
use crate::encode::extend;
use crate::parser::Request;
use crate::stream::{lemma_line_len_found, lemma_line_len_props, line_len};
use vstd::prelude::*;
use vstd::slice::slice_subrange;

verus! {

/// Whether `input` serves `request` in full: a line that ends in LF, a block
/// of the length asked for. Anything less is what a stream had left when it
/// ended.
pub open spec fn complete(request: Request, input: Seq<u8>) -> bool {
    match request {
        Request::Line => input.len() > 0 && input.last() == 10,
        Request::Block(k) => input.len() >= k,
    }
}

/// What is gathered of one input.
#[derive(Debug)]
pub struct Framer {
    request: Request,
    gathered: Vec<u8>,
}

/// The model of a [`Framer`]: the request it serves and the bytes it has
/// gathered for it.
pub struct FramerView {
    pub request: Request,
    pub gathered: Seq<u8>,
}

impl FramerView {
    /// What is gathered goes no further than the request: no byte behind
    /// the LF of a line, no more than the bytes of a block.
    pub open spec fn wf(self) -> bool {
        input_of(self.request, self.gathered) == self.gathered
    }
}

impl View for Framer {
    type V = FramerView;

    closed spec fn view(&self) -> FramerView {
        FramerView { request: self.request, gathered: self.gathered@ }
    }
}

/// What serves a request from a stream serves it from itself: nothing of it
/// lies behind its own end.
pub proof fn lemma_input_of_input(request: Request, s: Seq<u8>)
    ensures
        input_of(request, input_of(request, s)) == input_of(request, s),
{
    lemma_chunks(request, s, Seq::empty());
    assert(s + Seq::<u8>::empty() =~= s);
    assert(input_of(request, s) + Seq::<u8>::empty() =~= input_of(request, s));
}

/// Chunks do not matter: what is gathered from the bytes `a` and then from
/// the bytes `b` is what is gathered from `a` and `b` in one piece.
pub proof fn lemma_chunks(request: Request, a: Seq<u8>, b: Seq<u8>)
    ensures
        input_of(request, input_of(request, a) + b) == input_of(request, a + b),
{
    match request {
        Request::Line => {
            let k = line_len(a) as int;
            lemma_line_len_props(a);
            let head = a.take(k);
            if k > 0 && a[k - 1] == 10 {
                assert forall|j: int| 0 <= j < k - 1 implies (head + b)[j] != 10 by {
                    assert((head + b)[j] == a[j]);
                }
                assert forall|j: int| 0 <= j < k - 1 implies (a + b)[j] != 10 by {
                    assert((a + b)[j] == a[j]);
                }
                assert((head + b)[k - 1] == 10);
                assert((a + b)[k - 1] == 10);
                lemma_line_len_found(head + b, k - 1);
                lemma_line_len_found(a + b, k - 1);
                assert((head + b).take(k) =~= (a + b).take(k));
            } else {
                assert(head =~= a);
            }
        },
        Request::Block(k) => {
            if k <= a.len() {
                let head = a.take(k as int);
                assert((head + b).take(k as int) =~= (a + b).take(k as int));
            }
        },
    }
}

/// What serves a request in full is what the request takes, whatever
/// follows it.
pub proof fn lemma_complete(request: Request, input: Seq<u8>, rest: Seq<u8>)
    requires
        input_of(request, input) == input,
        complete(request, input),
    ensures
        input_of(request, input + rest) == input,
{
    lemma_chunks(request, input, rest);
    match request {
        Request::Line => {
            let k = input.len() as int;
            let all = input + rest;
            lemma_line_len_props(input);
            assert forall|j: int| 0 <= j < k - 1 implies all[j] != 10 by {
                assert(all[j] == input[j]);
            }
            assert(all[k - 1] == input[k - 1]);
            lemma_line_len_found(all, k - 1);
            assert(all.take(k) =~= input);
        },
        Request::Block(k) => {
            assert((input + rest).take(k as int) =~= input);
        },
    }
}

/// Nothing is gathered from nothing.
proof fn lemma_input_of_nothing(request: Request)
    ensures
        input_of(request, Seq::empty()) == Seq::<u8>::empty(),
{
    lemma_line_len_props(Seq::empty());
    assert(input_of(request, Seq::empty()) =~= Seq::<u8>::empty());
}

impl Framer {
    #[verifier::type_invariant]
    spec fn inv(&self) -> bool {
        self@.wf()
    }

    /// A framer that has gathered nothing for `request`.
    pub fn new(request: Request) -> (framer: Framer)
        ensures
            framer@.request == request,
            framer@.gathered == Seq::<u8>::empty(),
            framer@.wf(),
    {
        proof {
            lemma_input_of_nothing(request);
        }
        Framer { request, gathered: Vec::new() }
    }

    /// Whether the request is served in full.
    pub fn is_complete(&self) -> (res: bool)
        ensures
            res == complete(self@.request, self@.gathered),
            self@.wf(),
    {
        proof {
            use_type_invariant(self);
        }
        match self.request {
            Request::Line => {
                let len = self.gathered.len();
                len > 0 && self.gathered[len - 1] == 10
            },
            Request::Block(k) => self.gathered.len() >= k,
        }
    }

    /// Takes from the head of `chunk` what the request still lacks, and
    /// says how many bytes that was. What is gathered after it is what the
    /// request takes from all the bytes seen so far.
    #[verifier::rlimit(50)]
    pub fn push(&mut self, chunk: &[u8]) -> (taken: usize)
        ensures
            final(self)@.request == old(self)@.request,
            final(self)@.gathered == input_of(
                old(self)@.request,
                old(self)@.gathered + chunk@,
            ),
            final(self)@.gathered == old(self)@.gathered + chunk@.take(taken as int),
            taken <= chunk@.len(),
            final(self)@.wf(),
            !complete(final(self)@.request, final(self)@.gathered) ==> taken == chunk@.len(),
    {
        let ghost had = self.gathered@;
        let ghost all = had + chunk@;
        proof {
            use_type_invariant(&*self);
            lemma_input_of_input(self.request, all);
            lemma_input_of_nothing(self.request);
            lemma_line_len_props(had);
        }
        let end: usize = match self.request {
            Request::Line => {
                if self.is_complete() {
                    proof {
                        let k = had.len() as int;
                        assert forall|j: int| 0 <= j < k - 1 implies all[j] != 10 by {
                            assert(all[j] == had[j]);
                        }
                        assert(all[k - 1] == had[k - 1]);
                        lemma_line_len_found(all, k - 1);
                    }
                    0
                } else {
                    let mut i: usize = 0;
                    while i < chunk.len() && chunk[i] != 10
                        invariant
                            i <= chunk@.len(),
                            forall|j: int| 0 <= j < i ==> chunk@[j] != 10,
                        decreases chunk@.len() - i,
                    {
                        i += 1;
                    }
                    proof {
                        let k = had.len() as int + i;
                        assert forall|j: int| 0 <= j < k implies all[j] != 10 by {
                            if j < had.len() {
                                assert(all[j] == had[j]);
                            } else {
                                assert(all[j] == chunk@[j - had.len()]);
                            }
                        }
                        lemma_line_len_found(all, k);
                    }
                    if i < chunk.len() {
                        i + 1
                    } else {
                        i
                    }
                }
            },
            Request::Block(k) => {
                let have = self.gathered.len();
                let lack = if k > have {
                    k - have
                } else {
                    0
                };
                if lack < chunk.len() {
                    lack
                } else {
                    chunk.len()
                }
            },
        };
        let mut gathered: Vec<u8> = Vec::new();
        core::mem::swap(&mut self.gathered, &mut gathered);
        extend(&mut gathered, slice_subrange(chunk, 0, end));
        proof {
            assert(gathered@ =~= had + chunk@.take(end as int));
            assert(gathered@ =~= input_of(self.request, all));
        }
        core::mem::swap(&mut self.gathered, &mut gathered);
        end
    }

    /// What was gathered: the input for the parser.
    pub fn into_input(self) -> (input: Vec<u8>)
        ensures
            input@ == self@.gathered,
            self@.wf(),
    {
        proof {
            use_type_invariant(&self);
        }
        self.gathered
    }
}

} // verus!
