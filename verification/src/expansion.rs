//! What matching a form and expanding a macro's body come to,
//! stated over what the trees and the bindings hold.

use vstd::prelude::*;
use crate::ast::{ArgModel, AstModel, PatternModel};
use crate::bindings::BindingsModel;
use crate::span::{SpanModel, SpannedModel};
use crate::stamp::{tagged, untagged};
use crate::syntax::SyntaxModel;

verus! {

/// How many stamps are tried for one name before the search for a unique one is given up.
pub const TRIES: usize = 1024;

/// The spans of a row of values.
pub open spec fn spans_of<T>(items: Seq<SpannedModel<T>>) -> Seq<SpanModel> {
    Seq::new(items.len(), |i: int| items[i].span)
}

/// The keywords of an argument pattern, in the order in which they stand in it.
pub open spec fn keywords_of(pattern: SpannedModel<ArgModel>) -> Seq<Seq<char>>
    decreases pattern,
{
    match pattern.item {
        ArgModel::Keyword(name) => seq![name],
        ArgModel::Symbol(_) => Seq::empty(),
        ArgModel::Group(patterns) => keywords_of_all(patterns),
    }
}

/// The keywords of a row of argument patterns, in the order in which they stand in it.
pub open spec fn keywords_of_all(patterns: Seq<SpannedModel<ArgModel>>) -> Seq<Seq<char>>
    decreases patterns,
{
    if patterns.len() == 0 {
        Seq::empty()
    } else {
        keywords_of_all(patterns.drop_last()) + keywords_of(patterns.last())
    }
}

/// The first number of tries from `from` on whose stamp makes `base` a name
/// that is not among `taken`, if one of the tries allowed does.
pub open spec fn first_free(base: Seq<char>, taken: Set<Seq<char>>, seed: u64, from: nat) -> Option<
    nat,
>
    decreases TRIES - from,
{
    if from >= TRIES {
        None
    } else if !taken.contains(tagged(base, seed, from)) {
        Some(from)
    } else {
        first_free(base, taken, seed, from + 1)
    }
}

/// The name `base` made unique: tagged with the first stamp that gives a name
/// which is not among `taken`.
pub open spec fn unique_name(base: Seq<char>, taken: Set<Seq<char>>, seed: u64) -> Option<
    Seq<char>,
> {
    match first_free(base, taken, seed, 0) {
        Some(tries) => Some(tagged(base, seed, tries)),
        None => None,
    }
}

/// The error for a name that could not be made unique.
pub open spec fn exhausted(span: SpanModel) -> SyntaxModel {
    SyntaxModel {
        message: "Generated 1024 new unique identifiers for macro expansion, but all were already in use!"@,
        span,
    }
}

/// The error for a macro inside a macro.
pub open spec fn nested(span: SpanModel) -> SyntaxModel {
    SyntaxModel { message: "Nested macros are not allowed yet"@, span }
}

/// The error for a pattern that binds a name twice.
pub open spec fn collision(span: SpanModel) -> SyntaxModel {
    SyntaxModel {
        message: "Variable has already been declared in syntactic macro argument pattern"@,
        span,
    }
}

/// The error for a macro without a keyword.
pub open spec fn keywordless(span: SpanModel) -> SyntaxModel {
    SyntaxModel { message: "Syntactic macro must have at least one pseudokeyword"@, span }
}

/// What a symbol of a macro's body stands for, and the bindings afterwards.
/// A bound name stands for the tree that it is bound to.
/// Any other name stands for a symbol of its own, made unique,
/// and is bound to that symbol from then on.
#[verifier::opaque]
pub open spec fn resolved(name: Seq<char>, span: SpanModel, bindings: BindingsModel, seed: u64) -> (
    Result<SpannedModel<AstModel>, SyntaxModel>,
    BindingsModel,
) {
    if bindings.contains_key(name) {
        (Ok(bindings[name]), bindings)
    } else {
        match unique_name(name, bindings.dom(), seed) {
            Some(unique) => {
                let symbol = SpannedModel { item: AstModel::Symbol(unique), span };
                (Ok(symbol), bindings.insert(name, symbol))
            },
            None => (Err(exhausted(span)), bindings),
        }
    }
}

/// The outcome of an expansion: what came of it, and the bindings afterwards.
pub type Outcome<T> = (Result<T, SyntaxModel>, BindingsModel);

/// What a resolved symbol comes to where an argument pattern is expected:
/// the tree that it stands for seen as an argument pattern,
/// or an error at `span` where the tree is none.
#[verifier::opaque]
pub open spec fn arg_of(found: Outcome<SpannedModel<AstModel>>, span: SpanModel) -> Outcome<
    SpannedModel<ArgModel>,
> {
    match found.0 {
        Err(error) => (Err(error), found.1),
        Ok(tree) => match tree.item.as_arg_pattern() {
            Ok(item) => (Ok(SpannedModel { item, span: tree.span }), found.1),
            Err(message) => (Err(SyntaxModel { message, span }), found.1),
        },
    }
}

/// What a resolved symbol comes to where a pattern is expected:
/// the tree that it stands for seen as a pattern,
/// or an error at `span` where the tree is none.
#[verifier::opaque]
pub open spec fn pattern_of(found: Outcome<SpannedModel<AstModel>>, span: SpanModel) -> Outcome<
    SpannedModel<PatternModel>,
> {
    match found.0 {
        Err(error) => (Err(error), found.1),
        Ok(tree) => match tree.item.as_pattern() {
            Ok(item) => (Ok(SpannedModel { item, span: tree.span }), found.1),
            Err(message) => (Err(SyntaxModel { message, span }), found.1),
        },
    }
}

/// The outcome of expanding what a node holds, put back into a node with the span `span`.
#[verifier::opaque]
pub open spec fn rebuilt<A, B>(found: Outcome<A>, span: SpanModel, build: spec_fn(A) -> B) -> Outcome<
    SpannedModel<B>,
> {
    match found.0 {
        Err(error) => (Err(error), found.1),
        Ok(done) => (Ok(SpannedModel { item: build(done), span }), found.1),
    }
}

/// The outcome of expanding the two things that a node holds, one after the other,
/// put back into a node with the span `span`.
/// Where the first fails, the second is not looked at.
#[verifier::opaque]
pub open spec fn rebuilt_pair<A, B, C>(
    first: Outcome<A>,
    second: Outcome<B>,
    span: SpanModel,
    build: spec_fn(A, B) -> C,
) -> Outcome<SpannedModel<C>> {
    match first.0 {
        Err(error) => (Err(error), first.1),
        Ok(left) => match second.0 {
            Err(error) => (Err(error), second.1),
            Ok(right) => (Ok(SpannedModel { item: build(left, right), span }), second.1),
        },
    }
}

/// The outcome of expanding a row put together with that of expanding what follows the row.
/// Where the row fails, what follows it is not looked at.
#[verifier::opaque]
pub open spec fn extended<A>(front: Outcome<Seq<A>>, last: Outcome<A>) -> Outcome<Seq<A>> {
    match front.0 {
        Err(error) => (Err(error), front.1),
        Ok(done) => match last.0 {
            Err(error) => (Err(error), last.1),
            Ok(item) => (Ok(done.push(item)), last.1),
        },
    }
}

/// An argument pattern with its symbols resolved, and the bindings afterwards.
/// Keywords stay as they are. A group gets the span that its patterns had together.
pub open spec fn expanded_arg(pattern: SpannedModel<ArgModel>, bindings: BindingsModel, seed: u64)
    -> Outcome<SpannedModel<ArgModel>>
    decreases pattern,
{
    match pattern.item {
        ArgModel::Keyword(_) => (Ok(pattern), bindings),
        ArgModel::Symbol(name) => arg_of(
            resolved(name, pattern.span, bindings, seed),
            pattern.span,
        ),
        ArgModel::Group(patterns) => rebuilt(
            expanded_args(patterns, bindings, seed),
            SpanModel::join(spans_of(patterns)),
            |done: Seq<SpannedModel<ArgModel>>| ArgModel::Group(done),
        ),
    }
}

/// A row of argument patterns with their symbols resolved from left to right,
/// up to the first that fails, and the bindings afterwards.
pub open spec fn expanded_args(
    patterns: Seq<SpannedModel<ArgModel>>,
    bindings: BindingsModel,
    seed: u64,
) -> Outcome<Seq<SpannedModel<ArgModel>>>
    decreases patterns,
{
    if patterns.len() == 0 {
        (Ok(Seq::empty()), bindings)
    } else {
        let front = expanded_args(patterns.drop_last(), bindings, seed);
        extended(front, expanded_arg(patterns.last(), front.1, seed))
    }
}

/// A pattern with its symbols resolved, and the bindings afterwards.
/// A label gets the span that the pattern under it had;
/// a chain or a tuple gets the span that its patterns had together.
pub open spec fn expanded_pattern(
    pattern: SpannedModel<PatternModel>,
    bindings: BindingsModel,
    seed: u64,
) -> Outcome<SpannedModel<PatternModel>>
    decreases pattern,
{
    match pattern.item {
        PatternModel::Symbol(name) => pattern_of(
            resolved(name, pattern.span, bindings, seed),
            pattern.span,
        ),
        PatternModel::Data(_) => (Ok(pattern), bindings),
        PatternModel::Label(name, inner) => rebuilt(
            expanded_pattern(*inner, bindings, seed),
            inner.span,
            |done: SpannedModel<PatternModel>| PatternModel::Label(name, Box::new(done)),
        ),
        PatternModel::Chain(patterns) => rebuilt(
            expanded_patterns(patterns, bindings, seed),
            SpanModel::join(spans_of(patterns)),
            |done: Seq<SpannedModel<PatternModel>>| PatternModel::Chain(done),
        ),
        PatternModel::Tuple(patterns) => rebuilt(
            expanded_patterns(patterns, bindings, seed),
            SpanModel::join(spans_of(patterns)),
            |done: Seq<SpannedModel<PatternModel>>| PatternModel::Tuple(done),
        ),
    }
}

/// A row of patterns with their symbols resolved from left to right,
/// up to the first that fails, and the bindings afterwards.
pub open spec fn expanded_patterns(
    patterns: Seq<SpannedModel<PatternModel>>,
    bindings: BindingsModel,
    seed: u64,
) -> Outcome<Seq<SpannedModel<PatternModel>>>
    decreases patterns,
{
    if patterns.len() == 0 {
        (Ok(Seq::empty()), bindings)
    } else {
        let front = expanded_patterns(patterns.drop_last(), bindings, seed);
        extended(front, expanded_pattern(patterns.last(), front.1, seed))
    }
}

/// A tree of a macro's body expanded, and the bindings afterwards.
/// Every symbol is resolved; everything else keeps its shape.
/// A macro inside the body is refused.
pub open spec fn expanded(tree: SpannedModel<AstModel>, bindings: BindingsModel, seed: u64) -> Outcome<
    SpannedModel<AstModel>,
>
    decreases tree,
{
    match tree.item {
        AstModel::Symbol(name) => resolved(name, tree.span, bindings, seed),
        AstModel::Data(_) => (Ok(tree), bindings),
        AstModel::Block(trees) => rebuilt(
            expanded_all(trees, bindings, seed),
            tree.span,
            |done: Seq<SpannedModel<AstModel>>| AstModel::Block(done),
        ),
        AstModel::Form(trees) => rebuilt(
            expanded_all(trees, bindings, seed),
            tree.span,
            |done: Seq<SpannedModel<AstModel>>| AstModel::Form(done),
        ),
        AstModel::Group(inner) => rebuilt(
            expanded(*inner, bindings, seed),
            tree.span,
            |done: SpannedModel<AstModel>| AstModel::Group(Box::new(done)),
        ),
        AstModel::Composition { argument, function } => {
            let first = expanded(*argument, bindings, seed);
            rebuilt_pair(
                first,
                expanded(*function, first.1, seed),
                tree.span,
                |left: SpannedModel<AstModel>, right: SpannedModel<AstModel>|
                    AstModel::Composition { argument: Box::new(left), function: Box::new(right) },
            )
        },
        AstModel::CSTPattern(pattern) => rebuilt(
            expanded_pattern(SpannedModel { item: pattern, span: tree.span }, bindings, seed),
            tree.span,
            |done: SpannedModel<PatternModel>| AstModel::CSTPattern(done.item),
        ),
        AstModel::ArgPattern(pattern) => rebuilt(
            expanded_arg(SpannedModel { item: pattern, span: tree.span }, bindings, seed),
            tree.span,
            |done: SpannedModel<ArgModel>| AstModel::ArgPattern(done.item),
        ),
        AstModel::Assign { pattern, expression } => {
            let first = expanded_pattern(*pattern, bindings, seed);
            rebuilt_pair(
                first,
                expanded(*expression, first.1, seed),
                tree.span,
                |left: SpannedModel<PatternModel>, right: SpannedModel<AstModel>|
                    AstModel::Assign { pattern: Box::new(left), expression: Box::new(right) },
            )
        },
        AstModel::Lambda { pattern, expression } => {
            let first = expanded_pattern(*pattern, bindings, seed);
            rebuilt_pair(
                first,
                expanded(*expression, first.1, seed),
                tree.span,
                |left: SpannedModel<PatternModel>, right: SpannedModel<AstModel>|
                    AstModel::Lambda { pattern: Box::new(left), expression: Box::new(right) },
            )
        },
        AstModel::Label(kind, inner) => rebuilt(
            expanded(*inner, bindings, seed),
            tree.span,
            |done: SpannedModel<AstModel>| AstModel::Label(kind, Box::new(done)),
        ),
        AstModel::Tuple(trees) => rebuilt(
            expanded_all(trees, bindings, seed),
            tree.span,
            |done: Seq<SpannedModel<AstModel>>| AstModel::Tuple(done),
        ),
        AstModel::Syntax { arg_pat, expression } => (Err(nested(tree.span)), bindings),
        AstModel::FFI { name, expression } => rebuilt(
            expanded(*expression, bindings, seed),
            tree.span,
            |done: SpannedModel<AstModel>| AstModel::FFI { name, expression: Box::new(done) },
        ),
    }
}

/// A row of trees expanded from left to right, up to the first that fails,
/// and the bindings afterwards.
pub open spec fn expanded_all(
    trees: Seq<SpannedModel<AstModel>>,
    bindings: BindingsModel,
    seed: u64,
) -> Outcome<Seq<SpannedModel<AstModel>>>
    decreases trees,
{
    if trees.len() == 0 {
        (Ok(Seq::empty()), bindings)
    } else {
        let front = expanded_all(trees.drop_last(), bindings, seed);
        extended(front, expanded(trees.last(), front.1, seed))
    }
}

/// The outcome of matching a form: what the match binds, and what is left of the form.
/// Nothing is bound where the form does not match;
/// an error stands in the place of the bindings where a name is bound twice.
pub type Match = (Option<Result<BindingsModel, SyntaxModel>>, Seq<SpannedModel<AstModel>>);

/// What matching a keyword against the end of a form gives: the last node is taken off,
/// and nothing is bound where that node is the keyword, as a symbol with or without a tag.
#[verifier::opaque]
pub open spec fn bound_keyword(expected: Seq<char>, form: Seq<SpannedModel<AstModel>>) -> Match {
    if form.len() == 0 {
        (None, form)
    } else {
        match form.last().item {
            AstModel::Symbol(name) => {
                if untagged(name) == expected {
                    (Some(Ok(Map::empty())), form.drop_last())
                } else {
                    (None, form.drop_last())
                }
            },
            _ => (None, form.drop_last()),
        }
    }
}

/// What matching a symbol against the end of a form gives: the last node is taken off,
/// and the symbol's name is bound to it.
#[verifier::opaque]
pub open spec fn bound_symbol(name: Seq<char>, form: Seq<SpannedModel<AstModel>>) -> Match {
    if form.len() == 0 {
        (None, form)
    } else {
        (Some(Ok(Map::empty().insert(name, form.last()))), form.drop_last())
    }
}

/// The outcome of matching a row of patterns put together with that of matching
/// the pattern that follows the row, whose span is `span`.
/// Where the row does not match or fails, the pattern that follows is not looked at.
/// A name that both bind is an error.
#[verifier::opaque]
pub open spec fn merged(front: Match, last: Match, span: SpanModel) -> Match {
    match front.0 {
        Some(Ok(bindings)) => match last.0 {
            Some(Ok(new)) => {
                if bindings.dom().disjoint(new.dom()) {
                    (Some(Ok(bindings.union_prefer_right(new))), last.1)
                } else {
                    (Some(Err(collision(span))), last.1)
                }
            },
            _ => last,
        },
        _ => front,
    }
}

/// What matching an argument pattern against the end of a form gives,
/// and what is left of the form.
/// The form is held back to front: the node that is matched next is the last.
pub open spec fn bound(pattern: SpannedModel<ArgModel>, form: Seq<SpannedModel<AstModel>>) -> Match
    decreases pattern,
{
    match pattern.item {
        ArgModel::Keyword(expected) => bound_keyword(expected, form),
        ArgModel::Symbol(name) => bound_symbol(name, form),
        ArgModel::Group(patterns) => bound_all(patterns, form),
    }
}

/// What matching a row of argument patterns against the end of a form gives,
/// one pattern after the other, and what is left of the form.
pub open spec fn bound_all(
    patterns: Seq<SpannedModel<ArgModel>>,
    form: Seq<SpannedModel<AstModel>>,
) -> Match
    decreases patterns,
{
    if patterns.len() == 0 {
        (Some(Ok(Map::empty())), form)
    } else {
        let front = bound_all(patterns.drop_last(), form);
        merged(front, bound(patterns.last(), front.1), patterns.last().span)
    }
}

} // verus!
