//! Driving the parser over a byte stream: what comes out when every request
//! of the parser is served from the head of the stream, and the proof that it
//! is the value that the grammar finds there.

use crate::error::DecodeError;
use crate::frame::{header_of, payload_of, HeaderView};
use crate::parser::{advance, conclude, settle, ParserView, PendingView, Request, StepView};
use crate::stream::{
    first_block, first_line, lemma_items_take_bytes, lemma_line_len_bound,
    lemma_value_takes_bytes, line_len, parse_items, parse_value, Parsed,
};
use crate::value::Resp;
use vstd::prelude::*;

verus! {

/// What serves the request `request` from the head of the stream `s`: the
/// first line, or the block of the length asked for. Where the stream ends
/// before, it is all that is left.
pub open spec fn input_of(request: Request, s: Seq<u8>) -> Seq<u8> {
    match request {
        Request::Line => first_line(s),
        Request::Block(k) => first_block(s, k as nat),
    }
}

/// What the parser `p` takes next from the head of the stream `s`.
pub open spec fn next_input(p: ParserView, s: Seq<u8>) -> Seq<u8> {
    input_of(p.request(), s)
}

/// The outcome of serving the parser `p` from the stream `s` until it is done
/// or fails. A parser that asks for more has taken at least one byte
/// ([`lemma_run_decodes`] rests on it): the test for it only shows that the
/// run ends.
pub open spec fn run(p: ParserView, s: Seq<u8>) -> Parsed<Resp>
    decreases s.len(),
{
    let input = next_input(p, s);
    let (q, step) = advance(p, input);
    match step {
        StepView::Done(v) => Parsed { result: Ok(v), consumed: input.len() },
        StepView::Failed(e) => Parsed { result: Err(e), consumed: input.len() },
        StepView::More => if 0 < input.len() <= s.len() {
            run(q, s.skip(input.len() as int)).after(input.len())
        } else {
            Parsed { result: Err(DecodeError::EndOfStream), consumed: input.len() }
        },
    }
}

/// What becomes of the complete value `v` when the arrays `open` are under
/// way and the stream goes on with `s`: the innermost array reads the items
/// it still lacks and is handed to the array around it.
spec fn finish(open: Seq<PendingView>, v: Resp, s: Seq<u8>, raw: bool) -> Parsed<Resp>
    decreases open.len(), 0nat,
{
    if open.len() == 0 {
        Parsed { result: Ok(v), consumed: 0 }
    } else {
        let top = open.last();
        let got = top.items.push(v);
        collect(
            open.drop_last(),
            got,
            parse_items(s, (top.want - got.len()) as nat, raw),
            s,
            raw,
        )
    }
}

/// What becomes of an array that had the items `got` once the reading `more`
/// of the items it lacked, from the head of `s`, is over.
spec fn collect(
    below: Seq<PendingView>,
    got: Seq<Resp>,
    more: Parsed<Seq<Resp>>,
    s: Seq<u8>,
    raw: bool,
) -> Parsed<Resp>
    decreases below.len(), 1nat,
{
    match more.result {
        Err(e) => Parsed { result: Err(e), consumed: more.consumed },
        Ok(vs) => finish(below, Resp::Array(got + vs), s.skip(more.consumed as int), raw).after(
            more.consumed,
        ),
    }
}

/// The outcome `first` of a reading at the head of `s`, followed by what
/// becomes of its value.
spec fn then_finish(open: Seq<PendingView>, first: Parsed<Resp>, s: Seq<u8>, raw: bool) -> Parsed<
    Resp,
> {
    match first.result {
        Err(e) => first,
        Ok(v) => finish(open, v, s.skip(first.consumed as int), raw).after(first.consumed),
    }
}

/// What the grammar says of the stream `s` where the parser stands at `p`.
spec fn resume(p: ParserView, s: Seq<u8>) -> Parsed<Resp> {
    match p.bulk {
        None => then_finish(p.open, parse_value(s, p.raw), s, p.raw),
        Some(n) => {
            let block = first_block(s, n + 2);
            then_finish(
                p.open,
                Parsed { result: payload_of(block, n, p.raw), consumed: block.len() },
                s,
                p.raw,
            )
        },
    }
}

/// Every array under way lacks an item.
spec fn all_lacking(open: Seq<PendingView>) -> bool {
    forall|i: int| 0 <= i < open.len() ==> (#[trigger] open[i]).items.len() < open[i].want
}

/// Skipping twice is skipping the sum.
proof fn lemma_skip_twice(s: Seq<u8>, a: nat, b: nat)
    requires
        a + b <= s.len(),
    ensures
        s.skip(a as int).skip(b as int) == s.skip((a + b) as int),
{
    assert(s.skip(a as int).skip(b as int) =~= s.skip((a + b) as int));
}

/// An array that lacks an item reads the next value and goes on with the
/// rest: that is reading the items it lacks.
#[verifier::rlimit(50)]
proof fn lemma_next_item(
    below: Seq<PendingView>,
    want: nat,
    got: Seq<Resp>,
    s: Seq<u8>,
    raw: bool,
)
    requires
        got.len() < want,
    ensures
        then_finish(
            below.push(PendingView { want, items: got }),
            parse_value(s, raw),
            s,
            raw,
        ) == collect(below, got, parse_items(s, (want - got.len()) as nat, raw), s, raw),
{
    let kept = PendingView { want, items: got };
    let open = below.push(kept);
    assert(open.last() == kept);
    assert(open.drop_last() =~= below);
    let need = (want - got.len()) as nat;
    let first = parse_value(s, raw);
    lemma_value_takes_bytes(s, raw);
    match first.result {
        Err(e) => {},
        Ok(v1) => {
            let c = first.consumed;
            let t = s.skip(c as int);
            let got1 = got.push(v1);
            let others = parse_items(t, (need - 1) as nat, raw);
            lemma_items_take_bytes(t, (need - 1) as nat, raw);
            assert((want - got1.len()) as nat == (need - 1) as nat);
            assert(finish(open, v1, t, raw) == collect(below, got1, others, t, raw));
            match others.result {
                Err(e) => {},
                Ok(vs) => {
                    assert(got + (seq![v1] + vs) =~= got1 + vs);
                    lemma_skip_twice(s, c, others.consumed);
                },
            }
        },
    }
}

/// Handing a value to the arrays under way is what the grammar does with it.
#[verifier::rlimit(50)]
proof fn lemma_settle(open: Seq<PendingView>, v: Resp, s: Seq<u8>, raw: bool)
    requires
        all_lacking(open),
    ensures
        all_lacking(settle(open, v).0),
        settle(open, v).1 !is Failed,
        settle(open, v).1 matches StepView::Done(w) ==> finish(open, v, s, raw) == (Parsed {
            result: Ok(w),
            consumed: 0,
        }),
        settle(open, v).1 is More ==> finish(open, v, s, raw) == then_finish(
            settle(open, v).0,
            parse_value(s, raw),
            s,
            raw,
        ),
    decreases open.len(),
{
    if open.len() > 0 {
        let top = open.last();
        let below = open.drop_last();
        let got = top.items.push(v);
        assert(all_lacking(below)) by {
            assert forall|i: int| 0 <= i < below.len() implies (#[trigger] below[i]).items.len()
                < below[i].want by {
                assert(below[i] == open[i]);
            }
        }
        if got.len() >= top.want {
            lemma_settle(below, Resp::Array(got), s, raw);
            assert(got + Seq::<Resp>::empty() =~= got);
            assert(s.skip(0) =~= s);
        } else {
            let kept = PendingView { want: top.want, items: got };
            let open2 = below.push(kept);
            assert(settle(open, v) == (open2, StepView::More));
            assert(all_lacking(open2)) by {
                assert forall|i: int| 0 <= i < open2.len() implies (#[trigger] open2[i]).items.len()
                    < open2[i].want by {
                    if i < below.len() {
                        assert(open2[i] == open[i]);
                    }
                }
            }
            lemma_next_item(below, top.want, got, s, raw);
        }
    }
}

/// The run after a complete value, or after a failure, at the head of `s`.
proof fn lemma_run_concludes(p: ParserView, s: Seq<u8>, first: Parsed<Resp>)
    requires
        p.wf(),
        advance(p, next_input(p, s)) == conclude(p, first.result),
        first.consumed == next_input(p, s).len(),
        first.result is Ok ==> 0 < first.consumed <= s.len(),
        first.result is Ok ==> ({
            let q = advance(p, next_input(p, s)).0;
            q.wf() && q.bulk is None ==> run(q, s.skip(first.consumed as int)) == resume(
                q,
                s.skip(first.consumed as int),
            )
        }),
    ensures
        run(p, s) == then_finish(p.open, first, s, p.raw),
{
    match first.result {
        Err(e) => {},
        Ok(v) => {
            lemma_settle(p.open, v, s.skip(first.consumed as int), p.raw);
        },
    }
}

/// Serving the parser from the stream gives what the grammar says of the
/// stream from where the parser stands.
#[verifier::rlimit(50)]
proof fn lemma_run_resumes(p: ParserView, s: Seq<u8>)
    requires
        p.wf(),
    ensures
        run(p, s) == resume(p, s),
    decreases s.len(),
{
    let raw = p.raw;
    let input = next_input(p, s);
    let (q, step) = advance(p, input);
    lemma_line_len_bound(s);
    assert(all_lacking(p.open));
    match p.bulk {
        Some(n) => {
            let first = Parsed { result: payload_of(input, n, raw), consumed: input.len() };
            if first.result is Ok {
                let rest = s.skip(input.len() as int);
                lemma_settle(p.open, first.result->Ok_0, rest, raw);
                if q.wf() && q.bulk is None {
                    lemma_run_resumes(q, rest);
                }
            }
            lemma_run_concludes(p, s, first);
        },
        None => {
            let k = line_len(s);
            let rest = s.skip(k as int);
            assert(input.len() == k);
            match header_of(input) {
                Err(e) => {
                    lemma_run_concludes(p, s, parse_value(s, raw));
                },
                Ok(HeaderView::Value(v)) => {
                    lemma_settle(p.open, v, rest, raw);
                    if q.wf() && q.bulk is None {
                        lemma_run_resumes(q, rest);
                    }
                    lemma_run_concludes(p, s, parse_value(s, raw));
                },
                Ok(HeaderView::Bulk(n)) => {
                    assert(q.wf());
                    lemma_run_resumes(q, rest);
                    let block = first_block(rest, n + 2);
                    lemma_skip_twice(s, k, block.len());
                },
                Ok(HeaderView::Array(n)) => {
                    if n == 0 {
                        let v = Resp::Array(Seq::empty());
                        lemma_settle(p.open, v, rest, raw);
                        if q.wf() && q.bulk is None {
                            lemma_run_resumes(q, rest);
                        }
                        lemma_run_concludes(p, s, parse_value(s, raw));
                    } else {
                        lemma_enters_array(p, s, n);
                        lemma_run_resumes(q, rest);
                    }
                },
            }
        },
    }
}

/// The grammar reads an array of `n` items as the parser does: header first,
/// then the items into an array under way.
#[verifier::rlimit(50)]
proof fn lemma_enters_array(p: ParserView, s: Seq<u8>, n: nat)
    requires
        p.wf(),
        p.bulk is None,
        n > 0,
        header_of(first_line(s)) == Ok::<HeaderView, DecodeError>(HeaderView::Array(n)),
    ensures
        ({
            let q = advance(p, first_line(s)).0;
            let rest = s.skip(line_len(s) as int);
            &&& q.wf()
            &&& q.bulk is None
            &&& 0 < line_len(s) <= s.len()
            &&& resume(p, s) == resume(q, rest).after(line_len(s))
        }),
{
    let raw = p.raw;
    let k = line_len(s);
    let rest = s.skip(k as int);
    let fresh = PendingView { want: n, items: Seq::empty() };
    let q = advance(p, first_line(s)).0;
    lemma_line_len_bound(s);
    assert(q.open == p.open.push(fresh));
    assert(q.wf()) by {
        assert forall|i: int| 0 <= i < q.open.len() implies (#[trigger] q.open[i]).items.len()
            < q.open[i].want by {
            if i < p.open.len() {
                assert(q.open[i] == p.open[i]);
            }
        }
    }
    lemma_next_item(p.open, n, Seq::empty(), rest, raw);
    let items = parse_items(rest, n, raw);
    lemma_items_take_bytes(rest, n, raw);
    match items.result {
        Err(e) => {},
        Ok(vs) => {
            assert(Seq::<Resp>::empty() + vs =~= vs);
            lemma_skip_twice(s, k, items.consumed);
        },
    }
}

/// Serving a parser that stands between two values from the stream `s` gives
/// the value that the grammar finds at the head of `s`, or the error it finds
/// there, and takes as many bytes.
pub proof fn lemma_run_decodes(s: Seq<u8>, raw: bool)
    ensures
        run(ParserView::idle(raw), s) == parse_value(s, raw),
{
    let p = ParserView::idle(raw);
    lemma_run_resumes(p, s);
    let first = parse_value(s, raw);
    assert(resume(p, s) == first) by {
        if first.result is Ok {
            assert(first.consumed + 0 == first.consumed);
        }
    }
}

} // verus!
