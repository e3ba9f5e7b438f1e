//! Why a tree fails to expand, and that a macro inside a macro's body always does.

use vstd::prelude::*;
use crate::ast::{ArgModel, AstModel, PatternModel};
use crate::bindings::BindingsModel;
use crate::expansion::{arg_of, exhausted, expanded, expanded_all, expanded_arg, expanded_args,
    expanded_pattern, expanded_patterns, extended, nested, pattern_of, rebuilt, rebuilt_pair,
    resolved};
use crate::span::{SpanModel, SpannedModel};
use crate::syntax::SyntaxModel;

verus! {

/// Whether a tree holds a macro, at any depth.
pub open spec fn holds_macro(item: AstModel) -> bool
    decreases item,
{
    match item {
        AstModel::Symbol(_) => false,
        AstModel::Data(_) => false,
        AstModel::Block(trees) => any_holds_macro(trees),
        AstModel::Form(trees) => any_holds_macro(trees),
        AstModel::Group(inner) => holds_macro(inner.item),
        AstModel::Composition { argument, function } => holds_macro(argument.item) || holds_macro(
            function.item,
        ),
        AstModel::CSTPattern(_) => false,
        AstModel::ArgPattern(_) => false,
        AstModel::Assign { pattern, expression } => holds_macro(expression.item),
        AstModel::Lambda { pattern, expression } => holds_macro(expression.item),
        AstModel::Label(_, inner) => holds_macro(inner.item),
        AstModel::Tuple(trees) => any_holds_macro(trees),
        AstModel::Syntax { arg_pat, expression } => true,
        AstModel::FFI { name, expression } => holds_macro(expression.item),
    }
}

/// Whether one of a row of trees holds a macro, at any depth.
pub open spec fn any_holds_macro(trees: Seq<SpannedModel<AstModel>>) -> bool
    decreases trees,
{
    if trees.len() == 0 {
        false
    } else {
        any_holds_macro(trees.drop_last()) || holds_macro(trees.last().item)
    }
}

/// Whether a macro with the span `span` stands in a tree, at any depth.
pub open spec fn holds_macro_at(tree: SpannedModel<AstModel>, span: SpanModel) -> bool
    decreases tree,
{
    match tree.item {
        AstModel::Symbol(_) => false,
        AstModel::Data(_) => false,
        AstModel::Block(trees) => any_holds_macro_at(trees, span),
        AstModel::Form(trees) => any_holds_macro_at(trees, span),
        AstModel::Group(inner) => holds_macro_at(*inner, span),
        AstModel::Composition { argument, function } => holds_macro_at(*argument, span)
            || holds_macro_at(*function, span),
        AstModel::CSTPattern(_) => false,
        AstModel::ArgPattern(_) => false,
        AstModel::Assign { pattern, expression } => holds_macro_at(*expression, span),
        AstModel::Lambda { pattern, expression } => holds_macro_at(*expression, span),
        AstModel::Label(_, inner) => holds_macro_at(*inner, span),
        AstModel::Tuple(trees) => any_holds_macro_at(trees, span),
        AstModel::Syntax { arg_pat, expression } => tree.span == span || holds_macro_at(
            *expression,
            span,
        ),
        AstModel::FFI { name, expression } => holds_macro_at(*expression, span),
    }
}

/// Whether a macro with the span `span` stands in one of a row of trees, at any depth.
pub open spec fn any_holds_macro_at(trees: Seq<SpannedModel<AstModel>>, span: SpanModel) -> bool
    decreases trees,
{
    if trees.len() == 0 {
        false
    } else {
        any_holds_macro_at(trees.drop_last(), span) || holds_macro_at(trees.last(), span)
    }
}

/// Whether an error is one that expansion gives for another reason than a macro in the tree:
/// a name could not be made unique, or a bound tree stands where it is no pattern.
pub open spec fn is_refusal(error: SyntaxModel) -> bool {
    ||| error == exhausted(error.span)
    ||| error.message == "Unexpected construct inside pattern"@
    ||| error.message == "Unexpected construct inside argument pattern"@
}

/// A node that is no pattern is refused with one and the same message.
pub proof fn lemma_as_pattern_message(item: AstModel)
    ensures
        item.as_pattern() is Err ==> item.as_pattern()->Err_0
            == "Unexpected construct inside pattern"@,
    decreases item,
{
    match item {
        AstModel::Label(kind, inner) => {
            lemma_as_pattern_message(inner.item);
        },
        AstModel::Form(items) => {
            lemma_as_patterns_message(items);
        },
        AstModel::Tuple(items) => {
            lemma_as_patterns_message(items);
        },
        _ => {},
    }
}

/// A row of nodes that are not all patterns is refused with one and the same message.
pub proof fn lemma_as_patterns_message(items: Seq<SpannedModel<AstModel>>)
    ensures
        AstModel::as_patterns(items) is Err ==> AstModel::as_patterns(items)->Err_0
            == "Unexpected construct inside pattern"@,
    decreases items,
{
    if items.len() > 0 {
        lemma_as_patterns_message(items.drop_last());
        lemma_as_pattern_message(items.last().item);
    }
}

/// A node that is no argument pattern is refused with one and the same message.
pub proof fn lemma_as_arg_pattern_message(item: AstModel)
    ensures
        item.as_arg_pattern() is Err ==> item.as_arg_pattern()->Err_0
            == "Unexpected construct inside argument pattern"@,
    decreases item,
{
    match item {
        AstModel::Form(items) => {
            lemma_as_arg_patterns_message(items);
        },
        _ => {},
    }
}

/// A row of nodes that are not all argument patterns is refused
/// with one and the same message.
pub proof fn lemma_as_arg_patterns_message(items: Seq<SpannedModel<AstModel>>)
    ensures
        AstModel::as_arg_patterns(items) is Err ==> AstModel::as_arg_patterns(items)->Err_0
            == "Unexpected construct inside argument pattern"@,
    decreases items,
{
    if items.len() > 0 {
        lemma_as_arg_patterns_message(items.drop_last());
        lemma_as_arg_pattern_message(items.last().item);
    }
}

/// Where an argument pattern fails to expand, a name could not be made unique,
/// or a bound tree is no argument pattern.
pub proof fn lemma_expand_arg_refusal(
    pattern: SpannedModel<ArgModel>,
    bindings: BindingsModel,
    seed: u64,
)
    ensures
        expanded_arg(pattern, bindings, seed).0 is Err ==> is_refusal(
            expanded_arg(pattern, bindings, seed).0->Err_0,
        ),
    decreases pattern,
{
    reveal(arg_of);
    reveal(rebuilt);
    reveal(resolved);
    match pattern.item {
        ArgModel::Keyword(_) => {},
        ArgModel::Symbol(name) => {
            let found = resolved(name, pattern.span, bindings, seed);
            if found.0 is Ok {
                lemma_as_arg_pattern_message(found.0->Ok_0.item);
            }
        },
        ArgModel::Group(patterns) => {
            lemma_expand_args_refusal(patterns, bindings, seed);
        },
    }
}

/// Where a row of argument patterns fails to expand, a name could not be made unique,
/// or a bound tree is no argument pattern.
pub proof fn lemma_expand_args_refusal(
    patterns: Seq<SpannedModel<ArgModel>>,
    bindings: BindingsModel,
    seed: u64,
)
    ensures
        expanded_args(patterns, bindings, seed).0 is Err ==> is_refusal(
            expanded_args(patterns, bindings, seed).0->Err_0,
        ),
    decreases patterns,
{
    reveal(extended);
    if patterns.len() > 0 {
        let front = expanded_args(patterns.drop_last(), bindings, seed);
        lemma_expand_args_refusal(patterns.drop_last(), bindings, seed);
        lemma_expand_arg_refusal(patterns.last(), front.1, seed);
    }
}

/// Where a pattern fails to expand, a name could not be made unique,
/// or a bound tree is no pattern.
pub proof fn lemma_expand_pattern_refusal(
    pattern: SpannedModel<PatternModel>,
    bindings: BindingsModel,
    seed: u64,
)
    ensures
        expanded_pattern(pattern, bindings, seed).0 is Err ==> is_refusal(
            expanded_pattern(pattern, bindings, seed).0->Err_0,
        ),
    decreases pattern,
{
    reveal(pattern_of);
    reveal(rebuilt);
    reveal(resolved);
    match pattern.item {
        PatternModel::Symbol(name) => {
            let found = resolved(name, pattern.span, bindings, seed);
            if found.0 is Ok {
                lemma_as_pattern_message(found.0->Ok_0.item);
            }
        },
        PatternModel::Data(_) => {},
        PatternModel::Label(name, inner) => {
            lemma_expand_pattern_refusal(*inner, bindings, seed);
        },
        PatternModel::Chain(patterns) => {
            lemma_expand_patterns_refusal(patterns, bindings, seed);
        },
        PatternModel::Tuple(patterns) => {
            lemma_expand_patterns_refusal(patterns, bindings, seed);
        },
    }
}

/// Where a row of patterns fails to expand, a name could not be made unique,
/// or a bound tree is no pattern.
pub proof fn lemma_expand_patterns_refusal(
    patterns: Seq<SpannedModel<PatternModel>>,
    bindings: BindingsModel,
    seed: u64,
)
    ensures
        expanded_patterns(patterns, bindings, seed).0 is Err ==> is_refusal(
            expanded_patterns(patterns, bindings, seed).0->Err_0,
        ),
    decreases patterns,
{
    reveal(extended);
    if patterns.len() > 0 {
        let front = expanded_patterns(patterns.drop_last(), bindings, seed);
        lemma_expand_patterns_refusal(patterns.drop_last(), bindings, seed);
        lemma_expand_pattern_refusal(patterns.last(), front.1, seed);
    }
}

/// A tree that holds a macro, at any depth, does not expand: no tree comes out.
/// And where a tree fails to expand, the error is that of a macro that stands in the tree,
/// at the span of that macro, unless a name could not be made unique or a bound tree
/// stood where it is no pattern.
pub proof fn lemma_nested_macro_is_refused(
    tree: SpannedModel<AstModel>,
    bindings: BindingsModel,
    seed: u64,
)
    ensures
        holds_macro(tree.item) ==> expanded(tree, bindings, seed).0 is Err,
        expanded(tree, bindings, seed).0 is Err ==> {
            let error = expanded(tree, bindings, seed).0->Err_0;
            is_refusal(error) || (error == nested(error.span) && holds_macro_at(tree, error.span))
        },
    decreases tree,
{
    reveal(rebuilt);
    reveal(rebuilt_pair);
    reveal(resolved);
    match tree.item {
        AstModel::Symbol(name) => {},
        AstModel::Data(_) => {},
        AstModel::Block(trees) => {
            lemma_nested_macros_are_refused(trees, bindings, seed);
        },
        AstModel::Form(trees) => {
            lemma_nested_macros_are_refused(trees, bindings, seed);
        },
        AstModel::Group(inner) => {
            lemma_nested_macro_is_refused(*inner, bindings, seed);
        },
        AstModel::Composition { argument, function } => {
            lemma_nested_macro_is_refused(*argument, bindings, seed);
            let first = expanded(*argument, bindings, seed);
            lemma_nested_macro_is_refused(*function, first.1, seed);
        },
        AstModel::CSTPattern(pattern) => {
            lemma_expand_pattern_refusal(
                SpannedModel { item: pattern, span: tree.span },
                bindings,
                seed,
            );
        },
        AstModel::ArgPattern(pattern) => {
            lemma_expand_arg_refusal(
                SpannedModel { item: pattern, span: tree.span },
                bindings,
                seed,
            );
        },
        AstModel::Assign { pattern, expression } => {
            lemma_expand_pattern_refusal(*pattern, bindings, seed);
            let first = expanded_pattern(*pattern, bindings, seed);
            lemma_nested_macro_is_refused(*expression, first.1, seed);
        },
        AstModel::Lambda { pattern, expression } => {
            lemma_expand_pattern_refusal(*pattern, bindings, seed);
            let first = expanded_pattern(*pattern, bindings, seed);
            lemma_nested_macro_is_refused(*expression, first.1, seed);
        },
        AstModel::Label(kind, inner) => {
            lemma_nested_macro_is_refused(*inner, bindings, seed);
        },
        AstModel::Tuple(trees) => {
            lemma_nested_macros_are_refused(trees, bindings, seed);
        },
        AstModel::Syntax { arg_pat, expression } => {},
        AstModel::FFI { name, expression } => {
            lemma_nested_macro_is_refused(*expression, bindings, seed);
        },
    }
}

/// A row of trees of which one holds a macro, at any depth, does not expand.
/// And where a row fails to expand, the error is that of a macro that stands in the row,
/// at the span of that macro, unless a name could not be made unique or a bound tree
/// stood where it is no pattern.
pub proof fn lemma_nested_macros_are_refused(
    trees: Seq<SpannedModel<AstModel>>,
    bindings: BindingsModel,
    seed: u64,
)
    ensures
        any_holds_macro(trees) ==> expanded_all(trees, bindings, seed).0 is Err,
        expanded_all(trees, bindings, seed).0 is Err ==> {
            let error = expanded_all(trees, bindings, seed).0->Err_0;
            is_refusal(error) || (error == nested(error.span) && any_holds_macro_at(
                trees,
                error.span,
            ))
        },
    decreases trees,
{
    reveal(extended);
    if trees.len() > 0 {
        let front = expanded_all(trees.drop_last(), bindings, seed);
        lemma_nested_macros_are_refused(trees.drop_last(), bindings, seed);
        lemma_nested_macro_is_refused(trees.last(), front.1, seed);
    }
}

} // verus!
