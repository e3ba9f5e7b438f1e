use passerine::source::Source;
use passerine::span::{Span, Spanned};
use passerine::syntax::Syntax;
use passerine::trace::Trace;
use std::rc::Rc;

#[test]
fn the_empty_span_has_no_length() {
    let span = Span::empty();
    assert!(span.is_empty());
    assert_eq!(span.offset(), 0);
    assert_eq!(span.length(), 0);
    assert_eq!(span.end(), 0);
    assert_eq!(span.excerpt(), "");
    assert_eq!(span, Span::empty());
    assert_eq!(span.clone(), span);
}

#[test]
fn a_span_knows_where_it_lies() {
    let source = Rc::new(Source::new("hello world", "./greeting"));
    let span = Span::new(&source, 6, 5);
    assert!(!span.is_empty());
    assert_eq!(span.offset(), 6);
    assert_eq!(span.length(), 5);
    assert_eq!(span.end(), 11);
    assert_eq!(Span::point(&source, 3), Span::new(&source, 3, 1));
    assert_eq!(Span::new(&source, usize::MAX, 2).end(), usize::MAX);
    assert!(span.same(&span.clone()));
    assert!(!span.same(&Span::new(&source, 6, 4)));
    let other = Rc::new(Source::new("hello world", "./other"));
    assert!(!span.same(&Span::new(&other, 6, 5)));
    assert_ne!(span, Span::new(&other, 6, 5));
}

#[test]
fn spans_combine_to_what_covers_both() {
    let source = Rc::new(Source::source("0123456789"));
    let a = Span::new(&source, 2, 3);
    let b = Span::new(&source, 7, 2);
    assert_eq!(Span::combine(&a, &b), Span::new(&source, 2, 7));
    assert_eq!(Span::combine(&b, &a), Span::new(&source, 2, 7));
    assert_eq!(Span::combine(&a, &Span::empty()), a);
    assert_eq!(Span::combine(&Span::empty(), &b), b);
    assert_eq!(Span::combine(&a, &Span::new(&source, 3, 1)), a);
    assert_eq!(Span::join(vec![]), Span::empty());
    assert_eq!(Span::join(vec![b.clone()]), b);
    assert_eq!(
        Span::join(vec![b.clone(), Span::empty(), a.clone(), Span::new(&source, 0, 1)]),
        Span::new(&source, 0, 9)
    );
    let items = vec![Spanned::new(1, a), Spanned::new(2, b)];
    assert_eq!(Spanned::build(&items), Span::new(&source, 2, 7));
    let none: Vec<Spanned<u8>> = vec![];
    assert_eq!(Spanned::build(&none), Span::empty());
}

#[test]
fn an_excerpt_shows_the_line_of_the_span() {
    let source = Rc::new(Source::new("first\nsecond line\nthird\n", "./lines"));
    assert_eq!(
        Span::new(&source, 13, 4).excerpt(),
        "In ./lines:2:8\n   |\n 2 | second line\n   |        ^^^^\n   |\n"
    );
    assert_eq!(
        Span::new(&source, 0, 5).excerpt(),
        "In ./lines:1:1\n   |\n 1 | first\n   | ^^^^^\n   |\n"
    );
    assert_eq!(
        Span::new(&source, 18, 0).excerpt(),
        "In ./lines:3:1\n   |\n 3 | third\n   | \n   |\n"
    );
}

#[test]
fn an_excerpt_stops_at_the_end_of_the_line() {
    let source = Rc::new(Source::new("first\nsecond line\nthird\n", "./lines"));
    assert_eq!(
        Span::new(&source, 3, 10).excerpt(),
        "In ./lines:1:4\n   |\n 1 | first\n   |    ^^\n   |\n"
    );
    assert_eq!(
        Span::new(&source, 100, 3).excerpt(),
        "In ./lines:4:1\n   |\n 4 | \n   | \n   |\n"
    );
}

#[test]
fn an_excerpt_has_a_margin_as_wide_as_the_line_number() {
    let mut text = String::new();
    for _ in 0..11 {
        text.push_str("line\n");
    }
    text.push_str("the twelfth");
    let source = Rc::new(Source::new(&text, "./long"));
    assert_eq!(
        Span::new(&source, 59, 7).excerpt(),
        "In ./long:12:5\n    |\n 12 | the twelfth\n    |     ^^^^^^^\n    |\n"
    );
}

#[test]
fn offsets_count_bytes() {
    let source = Rc::new(Source::new("é = \"ö\"\nx", "./accents"));
    assert_eq!(
        Span::new(&source, 5, 4).excerpt(),
        "In ./accents:1:5\n   |\n 1 | é = \"ö\"\n   |     ^^^\n   |\n"
    );
    assert_eq!(
        Span::new(&source, 10, 1).excerpt(),
        "In ./accents:2:1\n   |\n 2 | x\n   | ^\n   |\n"
    );
}

#[test]
fn an_error_without_a_span_is_only_its_message() {
    let error = Syntax::error("Nested macros are not allowed yet", &Span::empty());
    assert_eq!(error.to_text(), "Syntax Error: Nested macros are not allowed yet");
    assert_eq!(error.message, "Nested macros are not allowed yet");
    assert_eq!(error.span, Span::empty());
}

#[test]
fn context_is_shown_last() {
    let source = Rc::new(Source::source("a b"));
    let mut trace = Trace::error("Call", "no function", vec![Span::new(&source, 0, 1)]);
    trace.add_context(Span::new(&source, 2, 1));
    assert_eq!(
        trace.to_text(),
        "Traceback, most recent call last:\n\
         In ./source:1:3\n   |\n 1 | a b\n   |   ^\n   |\n\
         In ./source:1:1\n   |\n 1 | a b\n   | ^\n   |\n\
         Runtime Call Error: no function"
    );
    let bare = Trace::error("Type", "mismatch", vec![]);
    assert_eq!(
        bare.to_text(),
        "Traceback, most recent call last:\nRuntime Type Error: mismatch"
    );
}
