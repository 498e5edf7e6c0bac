//! The decoder as a machine without a byte source. It says what it needs
//! next, a header line or a block of bytes, takes it, and says how far the
//! value has come. Whoever owns the byte source does the reading.

use crate::error::DecodeError;
use crate::frame::{header_of, parse_header, parse_payload, payload_of, Header, HeaderView, RESP_MAX_SIZE};
use crate::value::{lemma_array_view, views, Resp, Value};
use vstd::prelude::*;

verus! {

/// What the parser needs next from the byte source.
#[derive(Debug, Clone, Copy, PartialEq, Eq, Structural)]
pub enum Request {
    /// The bytes up to and including the next LF, or up to the end of the
    /// stream if no LF comes.
    Line,
    /// Exactly this many bytes: a bulk payload and its CR LF. Fewer mean that
    /// the stream has ended.
    Block(usize),
}

/// How far the value has come after an input.
#[derive(Debug)]
pub enum Step {
    /// The value is not complete: ask what is needed next.
    More,
    /// The value is complete.
    Done(Value),
    /// The input was malformed. What had been gathered of the value is
    /// dropped.
    Failed(DecodeError),
}

/// The model of a [`Step`].
pub enum StepView {
    More,
    Done(Resp),
    Failed(DecodeError),
}

impl View for Step {
    type V = StepView;

    open spec fn view(&self) -> StepView {
        match self {
            Step::More => StepView::More,
            Step::Done(v) => StepView::Done(v@),
            Step::Failed(e) => StepView::Failed(*e),
        }
    }
}

/// An array whose header was read and whose items are still coming in.
#[derive(Debug)]
struct Pending {
    want: usize,
    items: Vec<Value>,
}

/// The model of an array under way: how many items its header declared, and
/// those that are there.
pub struct PendingView {
    pub want: nat,
    pub items: Seq<Resp>,
}

impl View for Pending {
    type V = PendingView;

    closed spec fn view(&self) -> PendingView {
        PendingView { want: self.want as nat, items: views(self.items@) }
    }
}

/// The models of the arrays under way, outermost first.
spec fn pending_views(open: Seq<Pending>) -> Seq<PendingView> {
    Seq::new(open.len(), |i: int| open[i]@)
}

/// The state of a parser.
#[derive(Debug)]
struct Machine {
    buf_bulk: bool,
    open: Vec<Pending>,
    bulk: Option<usize>,
}

/// The parser of one session.
#[derive(Debug)]
pub struct Parser {
    machine: Machine,
}

/// The model of a [`Parser`]: the bulk mode, the arrays under way with the
/// outermost first, and the declared length of a bulk whose payload is
/// awaited.
pub struct ParserView {
    pub raw: bool,
    pub open: Seq<PendingView>,
    pub bulk: Option<nat>,
}

impl ParserView {
    /// A parser between two values.
    pub open spec fn idle(raw: bool) -> ParserView {
        ParserView { raw, open: Seq::empty(), bulk: None }
    }

    /// Every array under way lacks an item, and an awaited bulk is below the
    /// ceiling.
    pub open spec fn wf(self) -> bool {
        &&& forall|i: int|
            0 <= i < self.open.len() ==> (#[trigger] self.open[i]).items.len() < self.open[i].want
        &&& self.bulk matches Some(n) ==> n < RESP_MAX_SIZE
    }

    /// What the parser needs next.
    pub open spec fn request(self) -> Request {
        match self.bulk {
            None => Request::Line,
            Some(n) => Request::Block((n + 2) as usize),
        }
    }
}

/// Hands the complete value `v` to the innermost array under way. An array
/// that has all its items is complete in turn and goes to the array around
/// it. With no array under way the value is the result.
pub open spec fn settle(open: Seq<PendingView>, v: Resp) -> (Seq<PendingView>, StepView)
    decreases open.len(),
{
    if open.len() == 0 {
        (open, StepView::Done(v))
    } else {
        let top = open.last();
        let items = top.items.push(v);
        if items.len() >= top.want {
            settle(open.drop_last(), Resp::Array(items))
        } else {
            (open.drop_last().push(PendingView { want: top.want, items }), StepView::More)
        }
    }
}

/// The parser and the step after a complete value, or after a failure.
pub open spec fn conclude(p: ParserView, outcome: Result<Resp, DecodeError>) -> (
    ParserView,
    StepView,
) {
    match outcome {
        Err(e) => (ParserView::idle(p.raw), StepView::Failed(e)),
        Ok(v) => {
            let (open, step) = settle(p.open, v);
            (ParserView { raw: p.raw, open, bulk: None }, step)
        },
    }
}

/// The parser and the step after the input that it asked for: a header line
/// where it awaits no bulk, else the block of that bulk.
pub open spec fn advance(p: ParserView, input: Seq<u8>) -> (ParserView, StepView) {
    match p.bulk {
        Some(n) => conclude(p, payload_of(input, n, p.raw)),
        None => match header_of(input) {
            Err(e) => conclude(p, Err(e)),
            Ok(HeaderView::Value(v)) => conclude(p, Ok(v)),
            Ok(HeaderView::Bulk(n)) => (
                ParserView { raw: p.raw, open: p.open, bulk: Some(n) },
                StepView::More,
            ),
            Ok(HeaderView::Array(n)) => if n == 0 {
                conclude(p, Ok(Resp::Array(Seq::empty())))
            } else {
                (
                    ParserView {
                        raw: p.raw,
                        open: p.open.push(PendingView { want: n, items: Seq::empty() }),
                        bulk: None,
                    },
                    StepView::More,
                )
            },
        },
    }
}

impl View for Parser {
    type V = ParserView;

    closed spec fn view(&self) -> ParserView {
        self.machine@
    }
}

impl Parser {
    #[verifier::type_invariant]
    spec fn inv(&self) -> bool {
        self.machine@.wf()
    }

    /// A parser between two values. With `buf_bulk` it keeps bulk payloads
    /// as raw bytes; without, it reads them as UTF-8 text.
    pub fn new(buf_bulk: bool) -> (parser: Parser)
        ensures
            parser@ == ParserView::idle(buf_bulk),
    {
        Parser { machine: Machine::new(buf_bulk) }
    }

    /// What the parser needs next.
    pub fn request(&self) -> (request: Request)
        ensures
            request == self@.request(),
            self@.wf(),
    {
        proof {
            use_type_invariant(self);
        }
        self.machine.request()
    }

    /// Takes the input that was asked for and says how far the value has
    /// come. After `Done` and after `Failed` the parser is between two
    /// values again.
    pub fn feed(&mut self, input: Vec<u8>) -> (step: Step)
        ensures
            (final(self)@, step@) == advance(old(self)@, input@),
            final(self)@.wf(),
    {
        proof {
            use_type_invariant(&*self);
        }
        let mut machine = Machine::new(false);
        core::mem::swap(&mut self.machine, &mut machine);
        let step = machine.feed(input);
        core::mem::swap(&mut self.machine, &mut machine);
        step
    }
}

impl View for Machine {
    type V = ParserView;

    closed spec fn view(&self) -> ParserView {
        ParserView {
            raw: self.buf_bulk,
            open: pending_views(self.open@),
            bulk: match self.bulk {
                Some(n) => Some(n as nat),
                None => None,
            },
        }
    }
}

impl Machine {
    /// The state between two values.
    fn new(buf_bulk: bool) -> (machine: Machine)
        ensures
            machine@ == ParserView::idle(buf_bulk),
            machine@.wf(),
    {
        let machine = Machine { buf_bulk, open: Vec::new(), bulk: None };
        assert(machine@.open =~= Seq::empty());
        machine
    }

    /// What is needed next.
    fn request(&self) -> (request: Request)
        requires
            self@.wf(),
        ensures
            request == self@.request(),
    {
        match self.bulk {
            None => Request::Line,
            Some(n) => Request::Block(n + 2),
        }
    }

    /// Takes the input that was asked for.
    fn feed(&mut self, input: Vec<u8>) -> (step: Step)
        requires
            old(self)@.wf(),
        ensures
            (final(self)@, step@) == advance(old(self)@, input@),
            final(self)@.wf(),
    {
        let outcome = match self.bulk {
            Some(n) => {
                self.bulk = None;
                parse_payload(input, n, self.buf_bulk)
            },
            None => match parse_header(input.as_slice()) {
                Err(e) => Err(e),
                Ok(Header::Value(v)) => Ok(v),
                Ok(Header::Bulk(n)) => {
                    self.bulk = Some(n);
                    return Step::More;
                },
                Ok(Header::Array(n)) => {
                    if n == 0 {
                        let empty = Value::Array(Vec::new());
                        proof {
                            lemma_array_view(empty);
                            assert(empty@->Array_0 =~= Seq::<Resp>::empty());
                        }
                        Ok(empty)
                    } else {
                        let ghost before = self.open@;
                        let fresh = Pending { want: n, items: Vec::new() };
                        assert(fresh@.items =~= Seq::<Resp>::empty());
                        self.open.push(fresh);
                        assert(pending_views(self.open@) =~= pending_views(before).push(fresh@));
                        return Step::More;
                    }
                },
            },
        };
        match outcome {
            Err(e) => {
                self.open = Vec::new();
                assert(pending_views(self.open@) =~= Seq::<PendingView>::empty());
                Step::Failed(e)
            },
            Ok(v) => self.settle(v),
        }
    }

    /// Hands a complete value to the arrays under way.
    fn settle(&mut self, v: Value) -> (step: Step)
        requires
            old(self).bulk is None,
            old(self)@.wf(),
        ensures
            final(self)@.wf(),
            (final(self)@.open, step@) == settle(old(self)@.open, v@),
            final(self)@.raw == old(self)@.raw,
            final(self)@.bulk is None,
    {
        let mut value = v;
        loop
            invariant
                self@.wf(),
                self.bulk is None,
                self.buf_bulk == old(self).buf_bulk,
                settle(self@.open, value@) == settle(old(self)@.open, v@),
            decreases self.open.len(),
        {
            let ghost before = self.open@;
            match self.open.pop() {
                None => {
                    assert(pending_views(self.open@) =~= pending_views(before));
                    return Step::Done(value);
                },
                Some(top) => {
                    assert(pending_views(self.open@) =~= pending_views(before).drop_last());
                    assert(top@ == pending_views(before).last());
                    let mut top = top;
                    let ghost had = top.items@;
                    let ghost pushed = value@;
                    top.items.push(value);
                    assert(views(top.items@) =~= views(had).push(pushed));
                    if top.items.len() >= top.want {
                        value = Value::Array(top.items);
                        proof {
                            lemma_array_view(value);
                        }
                    } else {
                        let ghost below = self.open@;
                        self.open.push(top);
                        assert(pending_views(self.open@) =~= pending_views(below).push(top@));
                        return Step::More;
                    }
                },
            }
        }
    }
}

} // verus!
