use passerine::ast::{ArgPattern, ASTPattern, AST};
use passerine::bindings::Bindings;
use passerine::data::Data;
use passerine::rule::Rule;
use passerine::source::Source;
use passerine::span::{Span, Spanned};
use passerine::stamp::{stamp, tag};
use std::rc::Rc;

fn bare<T>(item: T) -> Spanned<T> {
    Spanned::new(item, Span::empty())
}

fn symbol(name: &str) -> Spanned<AST> {
    bare(AST::Symbol(name.to_string()))
}

fn at(source: &Rc<Source>, offset: usize, length: usize) -> Span {
    Span::new(source, offset, length)
}

fn if_pattern() -> Spanned<ArgPattern> {
    bare(ArgPattern::Group(vec![
        bare(ArgPattern::Symbol("cond".to_string())),
        bare(ArgPattern::Keyword("then".to_string())),
        bare(ArgPattern::Symbol("a".to_string())),
        bare(ArgPattern::Keyword("else".to_string())),
        bare(ArgPattern::Symbol("b".to_string())),
    ]))
}

fn reversed(names: &[&str]) -> Vec<Spanned<AST>> {
    let mut form: Vec<Spanned<AST>> = names.iter().map(|name| symbol(name)).collect();
    form.reverse();
    form
}

#[test]
fn a_rule_needs_a_keyword() {
    let tree = symbol("x");
    let rule = Rule::new(if_pattern(), tree.clone()).unwrap();
    assert_eq!(rule.arg_pat, if_pattern());
    assert_eq!(rule.tree, tree);

    let source = Rc::new(Source::source("x y z"));
    let pattern = Spanned::new(
        ArgPattern::Group(vec![
            bare(ArgPattern::Symbol("x".to_string())),
            bare(ArgPattern::Group(vec![bare(ArgPattern::Symbol("y".to_string()))])),
        ]),
        at(&source, 0, 3),
    );
    let error = Rule::new(pattern, tree.clone()).unwrap_err();
    assert_eq!(error.message, "Syntactic macro must have at least one pseudokeyword");
    assert_eq!(error.span, at(&source, 0, 3));

    assert!(Rule::new(bare(ArgPattern::Group(vec![])), tree.clone()).is_err());
    assert!(Rule::new(bare(ArgPattern::Symbol("x".to_string())), tree.clone()).is_err());
    assert!(Rule::new(bare(ArgPattern::Keyword("x".to_string())), tree).is_ok());
}

#[test]
fn keywords_come_in_order_with_duplicates() {
    assert_eq!(Rule::keywords(&if_pattern()), vec!["then".to_string(), "else".to_string()]);
    let nested = bare(ArgPattern::Group(vec![
        bare(ArgPattern::Keyword("a".to_string())),
        bare(ArgPattern::Group(vec![
            bare(ArgPattern::Symbol("x".to_string())),
            bare(ArgPattern::Keyword("b".to_string())),
            bare(ArgPattern::Group(vec![bare(ArgPattern::Keyword("a".to_string()))])),
        ])),
        bare(ArgPattern::Keyword("c".to_string())),
    ]));
    assert_eq!(
        Rule::keywords(&nested),
        vec!["a".to_string(), "b".to_string(), "a".to_string(), "c".to_string()]
    );
    assert!(Rule::keywords(&bare(ArgPattern::Symbol("x".to_string()))).is_empty());
    assert!(Rule::keywords(&bare(ArgPattern::Group(vec![]))).is_empty());
}

#[test]
fn a_form_that_matches_is_bound() {
    let mut form = reversed(&["x", "then", "y", "else", "z"]);
    let bindings = Rule::bind(&if_pattern(), &mut form).unwrap().unwrap();
    assert!(form.is_empty());
    assert_eq!(bindings.len(), 3);
    assert_eq!(bindings.get("cond"), Some(&symbol("x")));
    assert_eq!(bindings.get("a"), Some(&symbol("y")));
    assert_eq!(bindings.get("b"), Some(&symbol("z")));
    assert_eq!(bindings.get("then"), None);
}

#[test]
fn a_form_with_another_keyword_does_not_match() {
    let mut form = reversed(&["x", "when", "y", "else", "z"]);
    assert!(Rule::bind(&if_pattern(), &mut form).is_none());
    assert_eq!(form, reversed(&["y", "else", "z"]));
}

#[test]
fn a_keyword_matches_with_a_tag() {
    let mut form = reversed(&["x", "then#0badcafe", "y", "else#1", "z"]);
    assert!(Rule::bind(&if_pattern(), &mut form).unwrap().is_ok());
    let mut form = vec![bare(AST::Data(Data::Integer(1)))];
    let keyword = bare(ArgPattern::Keyword("then".to_string()));
    assert!(Rule::bind(&keyword, &mut form).is_none());
    assert!(form.is_empty());
}

#[test]
fn a_form_that_is_too_short_does_not_match() {
    let mut form = reversed(&["x", "then", "y"]);
    assert!(Rule::bind(&if_pattern(), &mut form).is_none());
    assert!(form.is_empty());
    let mut none: Vec<Spanned<AST>> = vec![];
    assert!(Rule::bind(&bare(ArgPattern::Symbol("x".to_string())), &mut none).is_none());
    assert!(Rule::bind(&bare(ArgPattern::Keyword("x".to_string())), &mut none).is_none());
    let bindings = Rule::bind(&bare(ArgPattern::Group(vec![])), &mut none).unwrap().unwrap();
    assert_eq!(bindings.len(), 0);
}

#[test]
fn a_form_that_is_too_long_is_left_over() {
    let mut form = reversed(&["x", "then", "y", "else", "z", "and", "more"]);
    assert!(Rule::bind(&if_pattern(), &mut form).unwrap().is_ok());
    assert_eq!(form, reversed(&["and", "more"]));
}

#[test]
fn a_name_that_is_bound_twice_is_an_error() {
    let source = Rc::new(Source::source("a to a"));
    let pattern = bare(ArgPattern::Group(vec![
        Spanned::new(ArgPattern::Symbol("a".to_string()), at(&source, 0, 1)),
        Spanned::new(ArgPattern::Keyword("to".to_string()), at(&source, 2, 2)),
        Spanned::new(ArgPattern::Symbol("a".to_string()), at(&source, 5, 1)),
    ]));
    let mut form = reversed(&["x", "to", "y", "z"]);
    let error = Rule::bind(&pattern, &mut form).unwrap().unwrap_err();
    assert_eq!(
        error.message,
        "Variable has already been declared in syntactic macro argument pattern"
    );
    assert_eq!(error.span, at(&source, 5, 1));
    assert_eq!(form, reversed(&["z"]));
}

#[test]
fn merging_keeps_all_entries() {
    let mut base = Bindings::new();
    base.insert("a".to_string(), symbol("x"));
    base.insert("b".to_string(), symbol("y"));
    let mut new = Bindings::new();
    new.insert("c".to_string(), symbol("z"));
    new.insert("d".to_string(), symbol("w"));
    assert!(Rule::merge_safe(&mut base, new, Span::empty()).is_ok());
    assert_eq!(base.len(), 4);
    assert_eq!(base.get("a"), Some(&symbol("x")));
    assert_eq!(base.get("b"), Some(&symbol("y")));
    assert_eq!(base.get("c"), Some(&symbol("z")));
    assert_eq!(base.get("d"), Some(&symbol("w")));
    assert!(Rule::merge_safe(&mut base, Bindings::new(), Span::empty()).is_ok());
    assert_eq!(base.len(), 4);
}

#[test]
fn merging_fails_on_a_name_in_both() {
    let source = Rc::new(Source::source("a b c"));
    let mut base = Bindings::new();
    base.insert("a".to_string(), symbol("x"));
    base.insert("b".to_string(), symbol("y"));
    let mut new = Bindings::new();
    new.insert("c".to_string(), symbol("z"));
    new.insert("b".to_string(), symbol("w"));
    let error = Rule::merge_safe(&mut base, new, at(&source, 2, 1)).unwrap_err();
    assert_eq!(
        error.message,
        "Variable has already been declared in syntactic macro argument pattern"
    );
    assert_eq!(error.span, at(&source, 2, 1));
    assert_eq!(base.len(), 2);
    assert_eq!(base.get("a"), Some(&symbol("x")));
    assert_eq!(base.get("b"), Some(&symbol("y")));
    assert_eq!(base.get("c"), None);
}

#[test]
fn bindings_replace_what_a_name_stood_for() {
    let mut bindings = Bindings::new();
    assert!(!bindings.contains_key("a"));
    bindings.insert("a".to_string(), symbol("x"));
    bindings.insert("b".to_string(), symbol("y"));
    bindings.insert("a".to_string(), symbol("z"));
    assert!(bindings.contains_key("a"));
    assert_eq!(bindings.len(), 2);
    assert_eq!(bindings.get("a"), Some(&symbol("z")));
    assert_eq!(bindings.get("b"), Some(&symbol("y")));
}

#[test]
fn tags_are_taken_off() {
    assert_eq!(Rule::remove_tag("foo#d56aea12"), "foo");
    assert_eq!(Rule::remove_tag("foo"), "foo");
    assert_eq!(Rule::remove_tag("foo#a#b"), "foo");
    assert_eq!(Rule::remove_tag("#a"), "");
    assert_eq!(Rule::remove_tag("foo#"), "foo");
    assert_eq!(Rule::remove_tag(""), "");
    assert_eq!(Rule::remove_tag("naïve#00000000"), "naïve");
}

#[test]
fn stamps_are_eight_digits() {
    assert_eq!(stamp(0, 0), "00000000");
    assert_eq!(stamp(1, 0), "5851f42d");
    assert_eq!(stamp(7, 0), "6a3dad3d");
    assert_eq!(stamp(7, 1), "7e4328bc");
    assert_eq!(stamp(7, 2), "9248a43b");
    assert_eq!(stamp(u64::MAX, 0), "a7ae0bd2");
    assert_eq!(stamp(u64::MAX, 1023), "a9968c31");
    assert_eq!(tag("tmp", 7, 1), "tmp#7e4328bc");
}

#[test]
fn a_unique_tag_is_not_bound() {
    let mut bindings = Bindings::new();
    assert_eq!(
        Rule::unique_tag_with("tmp".to_string(), &bindings, 7),
        Some("tmp#6a3dad3d".to_string())
    );
    bindings.insert("tmp#6a3dad3d".to_string(), symbol("x"));
    assert_eq!(
        Rule::unique_tag_with("tmp".to_string(), &bindings, 7),
        Some("tmp#7e4328bc".to_string())
    );
    bindings.insert("tmp#7e4328bc".to_string(), symbol("x"));
    assert_eq!(
        Rule::unique_tag_with("tmp".to_string(), &bindings, 7),
        Some("tmp#9248a43b".to_string())
    );
    assert_eq!(
        Rule::unique_tag_with("other".to_string(), &bindings, 7),
        Some("other#6a3dad3d".to_string())
    );
    let unique = Rule::unique_tag("tmp".to_string(), &bindings).unwrap();
    assert!(!bindings.contains_key(&unique));
    assert_eq!(Rule::remove_tag(&unique), "tmp");
    assert_eq!(unique.len(), "tmp#".len() + 8);
}

fn crowded(base: &str, seed: u64) -> Bindings {
    let mut bindings = Bindings::new();
    for tries in 0..1024 {
        bindings.insert(tag(base, seed, tries), symbol("taken"));
    }
    bindings
}

#[test]
fn tags_run_out() {
    let mut bindings = crowded("tmp", 3);
    assert_eq!(bindings.len(), 1024);
    assert_eq!(Rule::unique_tag_with("tmp".to_string(), &bindings, 3), None);
    assert!(Rule::unique_tag_with("tmp".to_string(), &bindings, 4).is_some());
    let source = Rc::new(Source::source("tmp"));
    let error =
        Rule::resolve_symbol_with("tmp".to_string(), at(&source, 0, 3), &mut bindings, 3)
            .unwrap_err();
    assert_eq!(
        error.message,
        "Generated 1024 new unique identifiers for macro expansion, but all were already in use!"
    );
    assert_eq!(error.span, at(&source, 0, 3));
    assert_eq!(bindings.len(), 1024);
    let tree = Spanned::new(AST::Group(Box::new(symbol("tmp"))), at(&source, 0, 3));
    assert!(Rule::expand_with(tree, &mut bindings, 3).is_err());
}

#[test]
fn a_bound_symbol_resolves_to_its_tree() {
    let source = Rc::new(Source::source("f x"));
    let mut bindings = Bindings::new();
    let bound = Spanned::new(AST::Form(vec![symbol("f"), symbol("x")]), at(&source, 0, 3));
    bindings.insert("a".to_string(), bound.clone());
    let resolved =
        Rule::resolve_symbol_with("a".to_string(), Span::empty(), &mut bindings, 7).unwrap();
    assert_eq!(resolved, bound);
    assert_eq!(bindings.len(), 1);
    let resolved = Rule::resolve_symbol("a".to_string(), Span::empty(), &mut bindings).unwrap();
    assert_eq!(resolved, bound);
}

#[test]
fn an_unbound_symbol_resolves_to_a_unique_one() {
    let source = Rc::new(Source::source("tmp"));
    let mut bindings = Bindings::new();
    let span = at(&source, 0, 3);
    let resolved =
        Rule::resolve_symbol_with("tmp".to_string(), span.clone(), &mut bindings, 7).unwrap();
    let expected = Spanned::new(AST::Symbol("tmp#6a3dad3d".to_string()), span);
    assert_eq!(resolved, expected);
    assert_eq!(bindings.len(), 1);
    assert_eq!(bindings.get("tmp"), Some(&expected));
    let again =
        Rule::resolve_symbol_with("tmp".to_string(), Span::empty(), &mut bindings, 8).unwrap();
    assert_eq!(again, expected);
}

fn body() -> Spanned<AST> {
    bare(AST::Block(vec![
        bare(AST::Assign {
            pattern: Box::new(bare(ASTPattern::Symbol("tmp".to_string()))),
            expression: Box::new(bare(AST::Data(Data::Integer(1)))),
        }),
        symbol("tmp"),
    ]))
}

fn symbols_of_body(tree: &Spanned<AST>) -> (String, String) {
    match &tree.item {
        AST::Block(forms) => {
            let first = match &forms[0].item {
                AST::Assign { pattern, expression } => {
                    assert_eq!(expression.item, AST::Data(Data::Integer(1)));
                    match &pattern.item {
                        ASTPattern::Symbol(name) => name.clone(),
                        other => panic!("{:?}", other),
                    }
                }
                other => panic!("{:?}", other),
            };
            let second = match &forms[1].item {
                AST::Symbol(name) => name.clone(),
                other => panic!("{:?}", other),
            };
            assert_eq!(forms.len(), 2);
            (first, second)
        }
        other => panic!("{:?}", other),
    }
}

#[test]
fn expansion_is_hygienic() {
    let mut bindings = Bindings::new();
    let expanded = Rule::expand(body(), &mut bindings).unwrap();
    let (first, second) = symbols_of_body(&expanded);
    assert_eq!(first, second);
    assert_ne!(first, "tmp");
    assert!(first.starts_with("tmp#"));
    assert_eq!(first.len(), "tmp#".len() + 8);
    assert_eq!(Rule::remove_tag(&first), "tmp");
    assert_eq!(bindings.len(), 1);
    assert_eq!(bindings.get("tmp"), Some(&bare(AST::Symbol(first))));
}

#[test]
fn expansion_with_a_seed_is_exact() {
    let mut bindings = Bindings::new();
    bindings.insert("x".to_string(), bare(AST::Data(Data::Integer(5))));
    let tree = bare(AST::Form(vec![symbol("x"), symbol("tmp"), symbol("x"), symbol("tmp")]));
    let expanded = Rule::expand_with(tree, &mut bindings, 7).unwrap();
    let five = bare(AST::Data(Data::Integer(5)));
    assert_eq!(
        expanded,
        bare(AST::Form(vec![
            five.clone(),
            symbol("tmp#6a3dad3d"),
            five,
            symbol("tmp#6a3dad3d"),
        ]))
    );
    assert_eq!(bindings.len(), 2);
    assert_eq!(bindings.get("tmp"), Some(&symbol("tmp#6a3dad3d")));
}

#[test]
fn expanded_symbols_are_bound_or_made_unique() {
    let mut bindings = Bindings::new();
    bindings.insert("a".to_string(), bare(AST::Form(vec![symbol("f"), symbol("g")])));
    let tree = bare(AST::Tuple(vec![
        symbol("a"),
        symbol("b"),
        bare(AST::Label("L".to_string(), Box::new(symbol("c")))),
        bare(AST::FFI { name: "ffi".to_string(), expression: Box::new(symbol("b")) }),
    ]));
    let expanded = Rule::expand_with(tree, &mut bindings, 42).unwrap();
    assert_eq!(
        expanded,
        bare(AST::Tuple(vec![
            bare(AST::Form(vec![symbol("f"), symbol("g")])),
            symbol("b#7d720f6e"),
            bare(AST::Label("L".to_string(), Box::new(symbol("c#7d720f6e")))),
            bare(AST::FFI {
                name: "ffi".to_string(),
                expression: Box::new(symbol("b#7d720f6e")),
            }),
        ]))
    );
}

#[test]
fn expanding_again_keeps_the_shape() {
    let mut bindings = Bindings::new();
    let once = Rule::expand_with(body(), &mut bindings, 7).unwrap();
    let mut fresh = Bindings::new();
    let twice = Rule::expand_with(once.clone(), &mut fresh, 8).unwrap();
    let (first, second) = symbols_of_body(&once);
    let (third, fourth) = symbols_of_body(&twice);
    assert_eq!(first, "tmp#6a3dad3d");
    assert_eq!(second, "tmp#6a3dad3d");
    assert_eq!(third, format!("tmp#6a3dad3d#{}", stamp(8, 0)));
    assert_eq!(fourth, third);
    assert_eq!(Rule::remove_tag(&third), Rule::remove_tag(&first));
    assert_ne!(once, twice);
}

#[test]
fn nested_macros_are_refused() {
    let source = Rc::new(Source::source("syntax a 'b { a }"));
    let inner = Spanned::new(
        AST::Syntax {
            arg_pat: Box::new(if_pattern()),
            expression: Box::new(symbol("a")),
        },
        at(&source, 0, 17),
    );
    let tree = bare(AST::Block(vec![symbol("x"), inner, symbol("y")]));
    let mut bindings = Bindings::new();
    let error = Rule::expand(tree.clone(), &mut bindings).unwrap_err();
    assert!(error.message.contains("Nested macros"));
    assert_eq!(error.message, "Nested macros are not allowed yet");
    assert_eq!(error.span, at(&source, 0, 17));
    let mut bindings = Bindings::new();
    assert!(Rule::expand_with(tree, &mut bindings, 1).is_err());
    assert_eq!(bindings.len(), 1);
    assert!(bindings.contains_key("x"));
}

#[test]
fn keywords_stay_when_a_pattern_is_expanded() {
    let mut bindings = Bindings::new();
    bindings.insert("cond".to_string(), symbol("x"));
    let expanded = Rule::expand_arg_pat_with(if_pattern(), &mut bindings, 7).unwrap();
    assert_eq!(Rule::keywords(&expanded), Rule::keywords(&if_pattern()));
    assert_eq!(
        expanded,
        bare(ArgPattern::Group(vec![
            bare(ArgPattern::Symbol("x".to_string())),
            bare(ArgPattern::Keyword("then".to_string())),
            bare(ArgPattern::Symbol("a#6a3dad3d".to_string())),
            bare(ArgPattern::Keyword("else".to_string())),
            bare(ArgPattern::Symbol("b#6a3dad3d".to_string())),
        ]))
    );
    let mut bindings = Bindings::new();
    let expanded = Rule::expand_arg_pat(if_pattern(), &mut bindings).unwrap();
    assert_eq!(Rule::keywords(&expanded), Rule::keywords(&if_pattern()));
    assert_eq!(bindings.len(), 3);
}

#[test]
fn a_bound_keyword_comes_into_an_expanded_pattern() {
    let mut bindings = Bindings::new();
    bindings.insert(
        "cond".to_string(),
        bare(AST::ArgPattern(ArgPattern::Keyword("unless".to_string()))),
    );
    let expanded = Rule::expand_arg_pat_with(if_pattern(), &mut bindings, 7).unwrap();
    assert_eq!(
        Rule::keywords(&expanded),
        vec!["unless".to_string(), "then".to_string(), "else".to_string()]
    );
}

#[test]
fn a_keyword_bound_to_another_name_stays_out() {
    let mut bindings = Bindings::new();
    bindings.insert(
        "elsewhere".to_string(),
        bare(AST::ArgPattern(ArgPattern::Keyword("unless".to_string()))),
    );
    bindings.insert("cond".to_string(), symbol("x"));
    let expanded = Rule::expand_arg_pat_with(if_pattern(), &mut bindings, 7).unwrap();
    assert_eq!(Rule::keywords(&expanded), Rule::keywords(&if_pattern()));
}

#[test]
fn a_macro_is_refused_at_any_depth() {
    let source = Rc::new(Source::source("x -> (syntax a 'b { a })"));
    let inner = Spanned::new(
        AST::Syntax {
            arg_pat: Box::new(if_pattern()),
            expression: Box::new(symbol("a")),
        },
        at(&source, 6, 17),
    );
    let wrap: Vec<fn(Spanned<AST>) -> AST> = vec![
        |tree| AST::Block(vec![symbol("x"), tree]),
        |tree| AST::Form(vec![tree, symbol("x")]),
        |tree| AST::Tuple(vec![tree]),
        |tree| AST::Group(Box::new(tree)),
        |tree| AST::Composition { argument: Box::new(symbol("x")), function: Box::new(tree) },
        |tree| AST::Composition { argument: Box::new(tree), function: Box::new(symbol("x")) },
        |tree| AST::Assign {
            pattern: Box::new(bare(ASTPattern::Symbol("x".to_string()))),
            expression: Box::new(tree),
        },
        |tree| AST::Lambda {
            pattern: Box::new(bare(ASTPattern::Symbol("x".to_string()))),
            expression: Box::new(tree),
        },
        |tree| AST::Label("L".to_string(), Box::new(tree)),
        |tree| AST::FFI { name: "f".to_string(), expression: Box::new(tree) },
        |tree| AST::Syntax { arg_pat: Box::new(if_pattern()), expression: Box::new(tree) },
    ];
    for outer in wrap.iter() {
        for middle in wrap.iter() {
            let tree = bare(outer(Spanned::new(middle(inner.clone()), at(&source, 5, 19))));
            let mut bindings = Bindings::new();
            let error = Rule::expand_with(tree, &mut bindings, 11).unwrap_err();
            assert_eq!(error.message, "Nested macros are not allowed yet");
            assert!(error.span == at(&source, 6, 17) || error.span == at(&source, 5, 19)
                || error.span == Span::empty());
        }
    }
}

#[test]
fn expanding_again_renames_equal_names_alike() {
    let tree = bare(AST::Block(vec![
        bare(AST::Lambda {
            pattern: Box::new(bare(ASTPattern::Tuple(vec![
                bare(ASTPattern::Symbol("a".to_string())),
                bare(ASTPattern::Symbol("b".to_string())),
            ]))),
            expression: Box::new(bare(AST::Form(vec![symbol("b"), symbol("a"), symbol("b")]))),
        }),
        bare(AST::ArgPattern(ArgPattern::Group(vec![
            bare(ArgPattern::Keyword("a".to_string())),
            bare(ArgPattern::Symbol("a".to_string())),
        ]))),
    ]));
    let mut bindings = Bindings::new();
    let once = Rule::expand_with(tree, &mut bindings, 1).unwrap();
    let mut fresh = Bindings::new();
    let twice = Rule::expand_with(once.clone(), &mut fresh, 2).unwrap();
    let a = format!("a#{}#{}", stamp(1, 0), stamp(2, 0));
    let b = format!("b#{}#{}", stamp(1, 0), stamp(2, 0));
    assert_eq!(
        twice,
        bare(AST::Block(vec![
            bare(AST::Lambda {
                pattern: Box::new(bare(ASTPattern::Tuple(vec![
                    bare(ASTPattern::Symbol(a.clone())),
                    bare(ASTPattern::Symbol(b.clone())),
                ]))),
                expression: Box::new(bare(AST::Form(vec![symbol(&b), symbol(&a), symbol(&b)]))),
            }),
            bare(AST::ArgPattern(ArgPattern::Group(vec![
                bare(ArgPattern::Keyword("a".to_string())),
                bare(ArgPattern::Symbol(a.clone())),
            ]))),
        ]))
    );
    assert_eq!(fresh.len(), 2);
    assert_eq!(fresh.get(&format!("a#{}", stamp(1, 0))), Some(&symbol(&a)));
    assert_eq!(fresh.get(&format!("b#{}", stamp(1, 0))), Some(&symbol(&b)));
}

#[test]
fn a_tree_that_is_no_pattern_is_an_error() {
    let source = Rc::new(Source::source("a = 1"));
    let mut bindings = Bindings::new();
    bindings.insert("a".to_string(), bare(AST::Block(vec![])));
    let pattern = Spanned::new(ASTPattern::Symbol("a".to_string()), at(&source, 0, 1));
    let error = Rule::expand_pattern_with(pattern, &mut bindings, 7).unwrap_err();
    assert_eq!(error.message, "Unexpected construct inside pattern");
    assert_eq!(error.span, at(&source, 0, 1));

    let pattern = Spanned::new(ArgPattern::Symbol("a".to_string()), at(&source, 0, 1));
    let error = Rule::expand_arg_pat_with(pattern, &mut bindings, 7).unwrap_err();
    assert_eq!(error.message, "Unexpected construct inside argument pattern");
    assert_eq!(error.span, at(&source, 0, 1));

    let tree = bare(AST::Lambda {
        pattern: Box::new(bare(ASTPattern::Symbol("a".to_string()))),
        expression: Box::new(symbol("never")),
    });
    assert!(Rule::expand_with(tree, &mut bindings, 7).is_err());
    assert!(!bindings.contains_key("never"));
}

#[test]
fn patterns_are_expanded() {
    let source = Rc::new(Source::source("Some (x, y) z"));
    let mut bindings = Bindings::new();
    bindings.insert(
        "x".to_string(),
        Spanned::new(
            AST::Tuple(vec![symbol("p"), bare(AST::Data(Data::Integer(2)))]),
            at(&source, 12, 1),
        ),
    );
    let pattern = Spanned::new(
        ASTPattern::Label(
            "Some".to_string(),
            Box::new(Spanned::new(
                ASTPattern::Tuple(vec![
                    Spanned::new(ASTPattern::Symbol("x".to_string()), at(&source, 6, 1)),
                    Spanned::new(ASTPattern::Symbol("y".to_string()), at(&source, 9, 1)),
                ]),
                at(&source, 5, 6),
            )),
        ),
        at(&source, 0, 11),
    );
    let expanded = Rule::expand_pattern_with(pattern, &mut bindings, 7).unwrap();
    let expected = Spanned::new(
        ASTPattern::Label(
            "Some".to_string(),
            Box::new(Spanned::new(
                ASTPattern::Tuple(vec![
                    Spanned::new(
                        ASTPattern::Tuple(vec![
                            bare(ASTPattern::Symbol("p".to_string())),
                            bare(ASTPattern::Data(Data::Integer(2))),
                        ]),
                        at(&source, 12, 1),
                    ),
                    Spanned::new(ASTPattern::Symbol("y#6a3dad3d".to_string()), at(&source, 9, 1)),
                ]),
                at(&source, 6, 4),
            )),
        ),
        at(&source, 5, 6),
    );
    assert_eq!(expanded, expected);
    let mut bindings = Bindings::new();
    let chain = bare(ASTPattern::Chain(vec![
        bare(ASTPattern::Symbol("a".to_string())),
        bare(ASTPattern::Data(Data::Unit)),
    ]));
    let expanded = Rule::expand_pattern(chain, &mut bindings).unwrap();
    match expanded.item {
        ASTPattern::Chain(patterns) => {
            assert_eq!(patterns.len(), 2);
            assert_eq!(patterns[1], bare(ASTPattern::Data(Data::Unit)));
        }
        other => panic!("{:?}", other),
    }
}

#[test]
fn every_kind_of_node_is_expanded() {
    let mut bindings = Bindings::new();
    let tree = bare(AST::Block(vec![
        bare(AST::Group(Box::new(symbol("a")))),
        bare(AST::Composition {
            argument: Box::new(symbol("a")),
            function: Box::new(symbol("f")),
        }),
        bare(AST::CSTPattern(ASTPattern::Symbol("a".to_string()))),
        bare(AST::ArgPattern(ArgPattern::Symbol("f".to_string()))),
        bare(AST::Lambda {
            pattern: Box::new(bare(ASTPattern::Symbol("f".to_string()))),
            expression: Box::new(bare(AST::Data(Data::Unit))),
        }),
    ]));
    let expanded = Rule::expand_with(tree, &mut bindings, 1).unwrap();
    let a = "a#5851f42d".to_string();
    let f = "f#5851f42d".to_string();
    assert_eq!(
        expanded,
        bare(AST::Block(vec![
            bare(AST::Group(Box::new(symbol(&a)))),
            bare(AST::Composition {
                argument: Box::new(symbol(&a)),
                function: Box::new(symbol(&f)),
            }),
            bare(AST::CSTPattern(ASTPattern::Symbol(a.clone()))),
            bare(AST::ArgPattern(ArgPattern::Symbol(f.clone()))),
            bare(AST::Lambda {
                pattern: Box::new(bare(ASTPattern::Symbol(f))),
                expression: Box::new(bare(AST::Data(Data::Unit))),
            }),
        ]))
    );
}

#[test]
fn trees_are_seen_as_patterns() {
    let tree = AST::Form(vec![
        symbol("a"),
        bare(AST::Label("L".to_string(), Box::new(bare(AST::Data(Data::Integer(1)))))),
        bare(AST::Tuple(vec![bare(AST::CSTPattern(ASTPattern::Symbol("b".to_string())))])),
    ]);
    assert_eq!(
        ASTPattern::from_ast(tree),
        Ok(ASTPattern::Chain(vec![
            bare(ASTPattern::Symbol("a".to_string())),
            bare(ASTPattern::Label(
                "L".to_string(),
                Box::new(bare(ASTPattern::Data(Data::Integer(1))))
            )),
            bare(ASTPattern::Tuple(vec![bare(ASTPattern::Symbol("b".to_string()))])),
        ]))
    );
    assert_eq!(
        ASTPattern::from_ast(AST::Form(vec![symbol("a"), bare(AST::Block(vec![]))])),
        Err("Unexpected construct inside pattern".to_string())
    );
    assert_eq!(
        ArgPattern::from_ast(AST::Form(vec![
            symbol("a"),
            bare(AST::ArgPattern(ArgPattern::Keyword("k".to_string()))),
        ])),
        Ok(ArgPattern::Group(vec![
            bare(ArgPattern::Symbol("a".to_string())),
            bare(ArgPattern::Keyword("k".to_string())),
        ]))
    );
    assert_eq!(
        ArgPattern::from_ast(AST::Data(Data::Unit)),
        Err("Unexpected construct inside argument pattern".to_string())
    );
}
