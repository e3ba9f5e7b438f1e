//! Errors found before a program runs.

use vstd::prelude::*;
use crate::span::{Span, SpanModel};
use crate::text::push_text;

verus! {

/// A static error: something wrong with the program as it is written.
#[derive(Debug, PartialEq, Eq)]
pub struct Syntax {
    pub message: String,
    pub span: Span,
}

/// What a `Syntax` holds.
pub ghost struct SyntaxModel {
    pub message: Seq<char>,
    pub span: SpanModel,
}

impl SyntaxModel {
    /// The error as it is shown: the excerpt of its span, where it has one,
    /// then the message.
    pub open spec fn text(self) -> Seq<char> {
        self.span.excerpt() + "Syntax Error: "@ + self.message
    }
}

impl View for Syntax {
    type V = SyntaxModel;

    open spec fn view(&self) -> SyntaxModel {
        SyntaxModel { message: self.message@, span: self.span@ }
    }
}

impl Syntax {
    /// Creates a new static error.
    pub fn error(message: &str, span: &Span) -> (error: Syntax)
        ensures
            error@ == (SyntaxModel { message: message@, span: span@ }),
    {
        Syntax { message: message.to_owned(), span: span.clone() }
    }

    /// The error as it is shown: the excerpt of its span, where it has one,
    /// then the message.
    pub fn to_text(&self) -> (text: String)
        ensures
            text@ == self@.text(),
    {
        let mut text = self.span.excerpt();
        push_text(&mut text, "Syntax Error: ");
        push_text(&mut text, self.message.as_str());
        text
    }
}

} // verus!
