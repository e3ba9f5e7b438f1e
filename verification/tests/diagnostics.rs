use passerine::source::Source;
use passerine::span::Span;
use passerine::syntax::Syntax;
use passerine::trace::Trace;
use std::rc::Rc;

#[test]
fn error() {
    let source = Rc::new(Source::source("x = \"Hello, world\" -> y + 1"));
    let error = Syntax::error(
        "Unexpected token '\"Hello, world!\"'",
        &Span::new(&source, 4, 14),
    );

    let target = "In ./source:1:5
   |
 1 | x = \"Hello, world\" -> y + 1
   |     ^^^^^^^^^^^^^^
   |
Syntax Error: Unexpected token '\"Hello, world!\"'\
";

    let result = error.to_text();
    assert_eq!(result, target);
}

#[test]
fn traceback() {
    let source = Rc::new(Source::source(
        "incr = x -> x + 1
dub_incr = z -> (incr x) + (incr x)
forever = a -> a = a + (dub_incr a)
forever RandomLabel
",
    ));
    let target = "\
            Traceback, most recent call last:\n\
            In ./source:4:1\n   \
               |\n \
             4 | forever RandomLabel\n   \
               | ^^^^^^^^^^^^^^^^^^^\n   \
               |\n\
            In ./source:3:24\n   \
               |\n \
             3 | forever = a -> a = a + (dub_incr a)\n   \
               |                        ^^^^^^^^^^^^\n   \
               |\n\
            In ./source:2:17\n   \
               |\n \
             2 | dub_incr = z -> (incr x) + (incr x)\n   \
               |                 ^^^^^^^^\n   \
               |\n\
            In ./source:1:13\n   \
               |\n \
             1 | incr = x -> x + 1\n   \
               |             ^^^^^\n   \
               |\n\
            Runtime Type Error: Can\'t add Label to Label\
        ";

    let traceback = Trace::error(
        "Type",
        "Can't add Label to Label",
        vec![
            (Span::new(&source, 12, 5)),
            (Span::new(&source, 34, 8)),
            (Span::new(&source, 77, 12)),
            (Span::new(&source, 90, 19)),
        ],
    );

    let result = traceback.to_text();
    assert_eq!(result, target);
}
