//! Errors that come up while a program runs.

use vstd::prelude::*;
use crate::span::{Span, SpanModel};
use crate::text::push_text;

verus! {

/// A runtime error with the places that it passed through while the stack unwound:
/// a traceback.
#[derive(Debug, PartialEq, Eq)]
pub struct Trace {
    kind: String,
    message: String,
    spans: Vec<Span>,
}

/// What a `Trace` holds.
pub ghost struct TraceModel {
    pub kind: Seq<char>,
    pub message: Seq<char>,
    pub spans: Seq<SpanModel>,
}

/// The excerpts of the spans, the last span first.
pub open spec fn excerpts_backwards(spans: Seq<SpanModel>) -> Seq<char>
    decreases spans.len(),
{
    if spans.len() == 0 {
        Seq::empty()
    } else {
        spans.last().excerpt() + excerpts_backwards(spans.drop_last())
    }
}

impl TraceModel {
    /// The traceback as it is shown: a heading, the excerpts of its spans from the one
    /// that was added last to the one that was there first, then the kind of error
    /// and the message.
    pub open spec fn text(self) -> Seq<char> {
        "Traceback, most recent call last:\n"@ + excerpts_backwards(self.spans) + "Runtime "@
            + self.kind + " Error: "@ + self.message
    }
}

impl View for Trace {
    type V = TraceModel;

    closed spec fn view(&self) -> TraceModel {
        TraceModel {
            kind: self.kind@,
            message: self.message@,
            spans: self.spans@.map_values(|span: Span| span@),
        }
    }
}

impl Trace {
    /// Creates a new traceback.
    pub fn error(kind: &str, message: &str, spans: Vec<Span>) -> (trace: Trace)
        ensures
            trace@ == (TraceModel {
                kind: kind@,
                message: message@,
                spans: spans@.map_values(|span: Span| span@),
            }),
    {
        Trace { kind: kind.to_owned(), message: message.to_owned(), spans }
    }

    /// Adds a place that the error passed through while the stack unwound.
    pub fn add_context(&mut self, span: Span)
        ensures
            final(self)@ == (TraceModel { spans: old(self)@.spans.push(span@), ..old(self)@ }),
    {
        self.spans.push(span);
        assert(self@.spans =~= old(self)@.spans.push(span@));
    }

    /// The traceback as it is shown.
    pub fn to_text(&self) -> (text: String)
        ensures
            text@ == self@.text(),
    {
        let mut text = String::new();
        push_text(&mut text, "Traceback, most recent call last:\n");
        let ghost headed = text@;
        let ghost all = self@.spans;
        let mut left: usize = self.spans.len();
        assert(all.take(left as int) =~= all);
        while left > 0
            invariant
                left <= self.spans.len(),
                all == self@.spans,
                all.len() == self.spans.len(),
                text@ + excerpts_backwards(all.take(left as int)) == headed + excerpts_backwards(
                    all,
                ),
            decreases left,
        {
            let ghost before = text@;
            let ghost rest = excerpts_backwards(all.take(left as int));
            left = left - 1;
            assert(all.take(left + 1).drop_last() =~= all.take(left as int));
            assert(all.take(left + 1).last() == self.spans@[left as int]@);
            self.spans[left].push_excerpt(&mut text);
            assert(text@ + excerpts_backwards(all.take(left as int)) =~= before + rest);
        }
        assert(all.take(0) =~= Seq::empty());
        assert(text@ + Seq::<char>::empty() =~= text@);
        push_text(&mut text, "Runtime ");
        push_text(&mut text, self.kind.as_str());
        push_text(&mut text, " Error: ");
        push_text(&mut text, self.message.as_str());
        text
    }
}

} // verus!
