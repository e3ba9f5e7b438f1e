//! What expansion keeps of the shape of a tree, and how it renames the symbols of one.

use vstd::prelude::*;
use crate::ast::{ArgModel, AstModel, PatternModel};
use crate::bindings::BindingsModel;
use crate::expansion::{TRIES, arg_of, expanded, expanded_all, expanded_arg, expanded_args,
    expanded_pattern, expanded_patterns, extended, first_free, pattern_of, rebuilt, rebuilt_pair,
    resolved};
use crate::hygiene::{all_mention, arg_mentions, arg_within, args_mention, args_within, mentions,
    pattern_mentions, pattern_within, patterns_mention, patterns_within, tree_within, trees_within};
use crate::refusal::{any_holds_macro, holds_macro};
use crate::span::{SpanModel, SpannedModel};
use crate::stamp::{tagged, untagged, lemma_untagged_of_tagged};

verus! {

/// A value with no span.
pub open spec fn bare<T>(item: T) -> SpannedModel<T> {
    SpannedModel { item, span: SpanModel::empty() }
}

/// The shape of an argument pattern: the pattern without its spans,
/// and with the tags taken off its symbols.
pub open spec fn arg_shape(item: ArgModel) -> ArgModel
    decreases item,
{
    match item {
        ArgModel::Keyword(name) => ArgModel::Keyword(name),
        ArgModel::Symbol(name) => ArgModel::Symbol(untagged(name)),
        ArgModel::Group(patterns) => ArgModel::Group(arg_shapes(patterns)),
    }
}

/// The shapes of a row of argument patterns.
pub open spec fn arg_shapes(patterns: Seq<SpannedModel<ArgModel>>) -> Seq<SpannedModel<ArgModel>>
    decreases patterns,
{
    Seq::new(
        patterns.len(),
        |i: int|
            if 0 <= i < patterns.len() {
                bare(arg_shape(patterns[i].item))
            } else {
                arbitrary()
            },
    )
}

/// The shape of a pattern: the pattern without its spans,
/// and with the tags taken off its symbols.
pub open spec fn pattern_shape(item: PatternModel) -> PatternModel
    decreases item,
{
    match item {
        PatternModel::Symbol(name) => PatternModel::Symbol(untagged(name)),
        PatternModel::Data(data) => PatternModel::Data(data),
        PatternModel::Label(name, inner) => PatternModel::Label(
            name,
            Box::new(bare(pattern_shape(inner.item))),
        ),
        PatternModel::Chain(patterns) => PatternModel::Chain(pattern_shapes(patterns)),
        PatternModel::Tuple(patterns) => PatternModel::Tuple(pattern_shapes(patterns)),
    }
}

/// The shapes of a row of patterns.
pub open spec fn pattern_shapes(patterns: Seq<SpannedModel<PatternModel>>) -> Seq<
    SpannedModel<PatternModel>,
>
    decreases patterns,
{
    Seq::new(
        patterns.len(),
        |i: int|
            if 0 <= i < patterns.len() {
                bare(pattern_shape(patterns[i].item))
            } else {
                arbitrary()
            },
    )
}

/// The shape of a tree: the tree without its spans, and with the tags taken off its symbols.
/// Two trees of the same shape differ only in how their symbols were made unique,
/// and in where they came from.
pub open spec fn shape(item: AstModel) -> AstModel
    decreases item,
{
    match item {
        AstModel::Symbol(name) => AstModel::Symbol(untagged(name)),
        AstModel::Data(data) => AstModel::Data(data),
        AstModel::Block(trees) => AstModel::Block(shapes(trees)),
        AstModel::Form(trees) => AstModel::Form(shapes(trees)),
        AstModel::Group(inner) => AstModel::Group(Box::new(bare(shape(inner.item)))),
        AstModel::Composition { argument, function } => AstModel::Composition {
            argument: Box::new(bare(shape(argument.item))),
            function: Box::new(bare(shape(function.item))),
        },
        AstModel::CSTPattern(pattern) => AstModel::CSTPattern(pattern_shape(pattern)),
        AstModel::ArgPattern(pattern) => AstModel::ArgPattern(arg_shape(pattern)),
        AstModel::Assign { pattern, expression } => AstModel::Assign {
            pattern: Box::new(bare(pattern_shape(pattern.item))),
            expression: Box::new(bare(shape(expression.item))),
        },
        AstModel::Lambda { pattern, expression } => AstModel::Lambda {
            pattern: Box::new(bare(pattern_shape(pattern.item))),
            expression: Box::new(bare(shape(expression.item))),
        },
        AstModel::Label(kind, inner) => AstModel::Label(kind, Box::new(bare(shape(inner.item)))),
        AstModel::Tuple(trees) => AstModel::Tuple(shapes(trees)),
        AstModel::Syntax { arg_pat, expression } => AstModel::Syntax {
            arg_pat: Box::new(bare(arg_shape(arg_pat.item))),
            expression: Box::new(bare(shape(expression.item))),
        },
        AstModel::FFI { name, expression } => AstModel::FFI {
            name,
            expression: Box::new(bare(shape(expression.item))),
        },
    }
}

/// The shapes of a row of trees.
pub open spec fn shapes(trees: Seq<SpannedModel<AstModel>>) -> Seq<SpannedModel<AstModel>>
    decreases trees,
{
    Seq::new(
        trees.len(),
        |i: int|
            if 0 <= i < trees.len() {
                bare(shape(trees[i].item))
            } else {
                arbitrary()
            },
    )
}

/// Every name that is bound is bound to a symbol that differs from the name by its tag
/// at most. Bindings are so where expansion alone has filled them.
pub open spec fn self_named(bindings: BindingsModel) -> bool {
    forall|name: Seq<char>| #[trigger]
        bindings.contains_key(name) ==> bindings[name].item is Symbol && untagged(
            bindings[name].item->Symbol_0,
        ) == untagged(name)
}

/// Resolving a symbol against bindings that expansion alone has filled
/// gives a symbol that differs from it by its tag at most.
pub proof fn lemma_resolve_keeps_name(
    name: Seq<char>,
    span: SpanModel,
    bindings: BindingsModel,
    seed: u64,
)
    requires
        self_named(bindings),
    ensures
        self_named(resolved(name, span, bindings, seed).1),
        resolved(name, span, bindings, seed).0 is Ok ==> {
            let tree = resolved(name, span, bindings, seed).0->Ok_0;
            tree.item is Symbol && untagged(tree.item->Symbol_0) == untagged(name)
        },
{
    reveal(resolved);
    if !bindings.contains_key(name) {
        match first_free(name, bindings.dom(), seed, 0) {
            Some(tries) => {
                lemma_untagged_of_tagged(name, seed, tries);
                let unique = tagged(name, seed, tries);
                let symbol = SpannedModel { item: AstModel::Symbol(unique), span };
                let after = bindings.insert(name, symbol);
                assert forall|other: Seq<char>| #[trigger]
                    after.contains_key(other) implies after[other].item is Symbol && untagged(
                    after[other].item->Symbol_0,
                ) == untagged(other) by {
                    if other != name {
                        assert(bindings.contains_key(other));
                    }
                }
            },
            None => {},
        }
    }
}

/// Expanding an argument pattern against bindings that expansion alone has filled
/// keeps its shape.
pub proof fn lemma_expand_arg_keeps_shape(
    pattern: SpannedModel<ArgModel>,
    bindings: BindingsModel,
    seed: u64,
)
    requires
        self_named(bindings),
    ensures
        self_named(expanded_arg(pattern, bindings, seed).1),
        expanded_arg(pattern, bindings, seed).0 is Ok ==> arg_shape(
            expanded_arg(pattern, bindings, seed).0->Ok_0.item,
        ) == arg_shape(pattern.item),
    decreases pattern,
{
    reveal(arg_of);
    reveal(rebuilt);
    match pattern.item {
        ArgModel::Keyword(_) => {},
        ArgModel::Symbol(name) => {
            lemma_resolve_keeps_name(name, pattern.span, bindings, seed);
        },
        ArgModel::Group(patterns) => {
            lemma_expand_args_keeps_shape(patterns, bindings, seed);
        },
    }
}

/// Expanding a row of argument patterns against bindings that expansion alone has filled
/// keeps the shape of each.
pub proof fn lemma_expand_args_keeps_shape(
    patterns: Seq<SpannedModel<ArgModel>>,
    bindings: BindingsModel,
    seed: u64,
)
    requires
        self_named(bindings),
    ensures
        self_named(expanded_args(patterns, bindings, seed).1),
        expanded_args(patterns, bindings, seed).0 is Ok ==> arg_shapes(
            expanded_args(patterns, bindings, seed).0->Ok_0,
        ) == arg_shapes(patterns),
    decreases patterns,
{
    reveal(extended);
    if patterns.len() > 0 {
        let front = expanded_args(patterns.drop_last(), bindings, seed);
        lemma_expand_args_keeps_shape(patterns.drop_last(), bindings, seed);
        lemma_expand_arg_keeps_shape(patterns.last(), front.1, seed);
        let last = expanded_arg(patterns.last(), front.1, seed);
        if front.0 is Ok && last.0 is Ok {
            let before = front.0->Ok_0;
            let done = before.push(last.0->Ok_0);
            assert(arg_shapes(before).len() == before.len());
            assert(arg_shapes(patterns.drop_last()).len() == patterns.len() - 1);
            assert(arg_shapes(done) =~= arg_shapes(patterns)) by {
                assert forall|i: int| 0 <= i < done.len() implies arg_shapes(done)[i] == arg_shapes(
                    patterns,
                )[i] by {
                    if i < before.len() {
                        assert(arg_shapes(before)[i] == arg_shapes(patterns.drop_last())[i]);
                        assert(arg_shapes(before)[i] == bare(arg_shape(before[i].item)));
                        assert(arg_shapes(patterns.drop_last())[i] == bare(
                            arg_shape(patterns.drop_last()[i].item),
                        ));
                    }
                    assert(arg_shapes(done)[i] == bare(arg_shape(done[i].item)));
                    assert(arg_shapes(patterns)[i] == bare(arg_shape(patterns[i].item)));
                }
            }
        }
    } else {
        assert(arg_shapes(Seq::<SpannedModel<ArgModel>>::empty()) =~= arg_shapes(patterns));
    }
}

/// Expanding a pattern against bindings that expansion alone has filled keeps its shape.
pub proof fn lemma_expand_pattern_keeps_shape(
    pattern: SpannedModel<PatternModel>,
    bindings: BindingsModel,
    seed: u64,
)
    requires
        self_named(bindings),
    ensures
        self_named(expanded_pattern(pattern, bindings, seed).1),
        expanded_pattern(pattern, bindings, seed).0 is Ok ==> pattern_shape(
            expanded_pattern(pattern, bindings, seed).0->Ok_0.item,
        ) == pattern_shape(pattern.item),
    decreases pattern,
{
    reveal(pattern_of);
    reveal(rebuilt);
    match pattern.item {
        PatternModel::Symbol(name) => {
            lemma_resolve_keeps_name(name, pattern.span, bindings, seed);
        },
        PatternModel::Data(_) => {},
        PatternModel::Label(name, inner) => {
            lemma_expand_pattern_keeps_shape(*inner, bindings, seed);
        },
        PatternModel::Chain(patterns) => {
            lemma_expand_patterns_keeps_shape(patterns, bindings, seed);
        },
        PatternModel::Tuple(patterns) => {
            lemma_expand_patterns_keeps_shape(patterns, bindings, seed);
        },
    }
}

/// Expanding a row of patterns against bindings that expansion alone has filled
/// keeps the shape of each.
pub proof fn lemma_expand_patterns_keeps_shape(
    patterns: Seq<SpannedModel<PatternModel>>,
    bindings: BindingsModel,
    seed: u64,
)
    requires
        self_named(bindings),
    ensures
        self_named(expanded_patterns(patterns, bindings, seed).1),
        expanded_patterns(patterns, bindings, seed).0 is Ok ==> pattern_shapes(
            expanded_patterns(patterns, bindings, seed).0->Ok_0,
        ) == pattern_shapes(patterns),
    decreases patterns,
{
    reveal(extended);
    if patterns.len() > 0 {
        let front = expanded_patterns(patterns.drop_last(), bindings, seed);
        lemma_expand_patterns_keeps_shape(patterns.drop_last(), bindings, seed);
        lemma_expand_pattern_keeps_shape(patterns.last(), front.1, seed);
        let last = expanded_pattern(patterns.last(), front.1, seed);
        if front.0 is Ok && last.0 is Ok {
            let before = front.0->Ok_0;
            let done = before.push(last.0->Ok_0);
            assert(pattern_shapes(before).len() == before.len());
            assert(pattern_shapes(patterns.drop_last()).len() == patterns.len() - 1);
            assert(pattern_shapes(done) =~= pattern_shapes(patterns)) by {
                assert forall|i: int| 0 <= i < done.len() implies pattern_shapes(done)[i] == pattern_shapes(
                    patterns,
                )[i] by {
                    if i < before.len() {
                        assert(pattern_shapes(before)[i] == pattern_shapes(patterns.drop_last())[i]);
                        assert(pattern_shapes(before)[i] == bare(pattern_shape(before[i].item)));
                        assert(pattern_shapes(patterns.drop_last())[i] == bare(
                            pattern_shape(patterns.drop_last()[i].item),
                        ));
                    }
                    assert(pattern_shapes(done)[i] == bare(pattern_shape(done[i].item)));
                    assert(pattern_shapes(patterns)[i] == bare(pattern_shape(patterns[i].item)));
                }
            }
        }
    } else {
        assert(pattern_shapes(Seq::<SpannedModel<PatternModel>>::empty()) =~= pattern_shapes(
            patterns,
        ));
    }
}

/// Expanding a tree against bindings that expansion alone has filled keeps its shape:
/// what comes out differs from what went in only in the tags of its symbols and in its spans.
pub proof fn lemma_expand_keeps_shape(
    tree: SpannedModel<AstModel>,
    bindings: BindingsModel,
    seed: u64,
)
    requires
        self_named(bindings),
    ensures
        self_named(expanded(tree, bindings, seed).1),
        expanded(tree, bindings, seed).0 is Ok ==> shape(expanded(tree, bindings, seed).0->Ok_0.item)
            == shape(tree.item),
    decreases tree,
{
    reveal(rebuilt);
    reveal(rebuilt_pair);
    match tree.item {
        AstModel::Symbol(name) => {
            lemma_resolve_keeps_name(name, tree.span, bindings, seed);
        },
        AstModel::Data(_) => {},
        AstModel::Block(trees) => {
            lemma_expand_all_keeps_shape(trees, bindings, seed);
        },
        AstModel::Form(trees) => {
            lemma_expand_all_keeps_shape(trees, bindings, seed);
        },
        AstModel::Group(inner) => {
            lemma_expand_keeps_shape(*inner, bindings, seed);
        },
        AstModel::Composition { argument, function } => {
            lemma_expand_keeps_shape(*argument, bindings, seed);
            let first = expanded(*argument, bindings, seed);
            lemma_expand_keeps_shape(*function, first.1, seed);
        },
        AstModel::CSTPattern(pattern) => {
            lemma_expand_pattern_keeps_shape(
                SpannedModel { item: pattern, span: tree.span },
                bindings,
                seed,
            );
        },
        AstModel::ArgPattern(pattern) => {
            lemma_expand_arg_keeps_shape(
                SpannedModel { item: pattern, span: tree.span },
                bindings,
                seed,
            );
        },
        AstModel::Assign { pattern, expression } => {
            lemma_expand_pattern_keeps_shape(*pattern, bindings, seed);
            let first = expanded_pattern(*pattern, bindings, seed);
            lemma_expand_keeps_shape(*expression, first.1, seed);
        },
        AstModel::Lambda { pattern, expression } => {
            lemma_expand_pattern_keeps_shape(*pattern, bindings, seed);
            let first = expanded_pattern(*pattern, bindings, seed);
            lemma_expand_keeps_shape(*expression, first.1, seed);
        },
        AstModel::Label(kind, inner) => {
            lemma_expand_keeps_shape(*inner, bindings, seed);
        },
        AstModel::Tuple(trees) => {
            lemma_expand_all_keeps_shape(trees, bindings, seed);
        },
        AstModel::Syntax { arg_pat, expression } => {},
        AstModel::FFI { name, expression } => {
            lemma_expand_keeps_shape(*expression, bindings, seed);
        },
    }
}

/// Expanding a row of trees against bindings that expansion alone has filled
/// keeps the shape of each.
pub proof fn lemma_expand_all_keeps_shape(
    trees: Seq<SpannedModel<AstModel>>,
    bindings: BindingsModel,
    seed: u64,
)
    requires
        self_named(bindings),
    ensures
        self_named(expanded_all(trees, bindings, seed).1),
        expanded_all(trees, bindings, seed).0 is Ok ==> shapes(
            expanded_all(trees, bindings, seed).0->Ok_0,
        ) == shapes(trees),
    decreases trees,
{
    reveal(extended);
    if trees.len() > 0 {
        let front = expanded_all(trees.drop_last(), bindings, seed);
        lemma_expand_all_keeps_shape(trees.drop_last(), bindings, seed);
        lemma_expand_keeps_shape(trees.last(), front.1, seed);
        let last = expanded(trees.last(), front.1, seed);
        if front.0 is Ok && last.0 is Ok {
            let before = front.0->Ok_0;
            let done = before.push(last.0->Ok_0);
            assert(shapes(before).len() == before.len());
            assert(shapes(trees.drop_last()).len() == trees.len() - 1);
            assert(shapes(done) =~= shapes(trees)) by {
                assert forall|i: int| 0 <= i < done.len() implies shapes(done)[i] == shapes(
                    trees,
                )[i] by {
                    if i < before.len() {
                        assert(shapes(before)[i] == shapes(trees.drop_last())[i]);
                        assert(shapes(before)[i] == bare(shape(before[i].item)));
                        assert(shapes(trees.drop_last())[i] == bare(
                            shape(trees.drop_last()[i].item),
                        ));
                    }
                    assert(shapes(done)[i] == bare(shape(done[i].item)));
                    assert(shapes(trees)[i] == bare(shape(trees[i].item)));
                }
            }
        }
    } else {
        assert(shapes(Seq::<SpannedModel<AstModel>>::empty()) =~= shapes(trees));
    }
}

/// Expanding a tree that was expanded before, with bindings that bind nothing yet,
/// gives a tree of the same shape again: the two differ only in the tags of their symbols
/// and in their spans.
pub proof fn lemma_expand_again_keeps_shape(
    tree: SpannedModel<AstModel>,
    bindings: BindingsModel,
    seed: u64,
    again: u64,
)
    requires
        expanded(tree, bindings, seed).0 is Ok,
        expanded(expanded(tree, bindings, seed).0->Ok_0, Map::empty(), again).0 is Ok,
    ensures
        shape(expanded(expanded(tree, bindings, seed).0->Ok_0, Map::empty(), again).0->Ok_0.item)
            == shape(expanded(tree, bindings, seed).0->Ok_0.item),
{
    lemma_expand_keeps_shape(expanded(tree, bindings, seed).0->Ok_0, Map::empty(), again);
}

/// Some stamp makes each of `bases` a name that is not among `taken`.
pub open spec fn has_room(bases: Set<Seq<char>>, taken: Set<Seq<char>>, seed: u64) -> bool {
    forall|base: Seq<char>| #[trigger]
        bases.contains(base) ==> exists|tries: nat|
            tries < TRIES && !taken.contains(#[trigger] tagged(base, seed, tries))
}

/// Some stamp makes each symbol of the tree a name that is neither a symbol of the tree
/// nor bound.
pub open spec fn has_room_for(item: AstModel, bindings: BindingsModel, seed: u64) -> bool {
    forall|base: Seq<char>| #[trigger]
        mentions(item, base) ==> exists|tries: nat|
            tries < TRIES && !mentions(item, #[trigger] tagged(base, seed, tries))
                && !bindings.contains_key(tagged(base, seed, tries))
}

/// Where one of the stamps that are tried gives a name that is not taken,
/// a name is found.
pub proof fn lemma_first_free_is_found(
    base: Seq<char>,
    taken: Set<Seq<char>>,
    seed: u64,
    from: nat,
    tries: nat,
)
    requires
        from <= tries < TRIES,
        !taken.contains(tagged(base, seed, tries)),
    ensures
        first_free(base, taken, seed, from) is Some,
    decreases tries - from,
{
    if from < tries && taken.contains(tagged(base, seed, from)) {
        lemma_first_free_is_found(base, taken, seed, from + 1, tries);
    }
}

/// A symbol resolves, and to a symbol, against bindings that expansion alone has filled,
/// where there is room to make it unique.
pub proof fn lemma_resolve_succeeds(
    name: Seq<char>,
    span: SpanModel,
    bindings: BindingsModel,
    seed: u64,
    bases: Set<Seq<char>>,
    taken: Set<Seq<char>>,
)
    requires
        bases.contains(name),
        self_named(bindings),
        bindings.dom().subset_of(taken),
        bases.subset_of(taken),
        has_room(bases, taken, seed),
    ensures
        resolved(name, span, bindings, seed).0 is Ok,
        resolved(name, span, bindings, seed).0->Ok_0.item is Symbol,
        self_named(resolved(name, span, bindings, seed).1),
        resolved(name, span, bindings, seed).1.dom().subset_of(taken),
{
    reveal(resolved);
    lemma_resolve_keeps_name(name, span, bindings, seed);
    if !bindings.contains_key(name) {
        let tries = choose|tries: nat|
            tries < TRIES && !taken.contains(#[trigger] tagged(name, seed, tries));
        assert(!bindings.dom().contains(tagged(name, seed, tries)));
        lemma_first_free_is_found(name, bindings.dom(), seed, 0, tries);
    }
}

/// An argument pattern expands against bindings that expansion alone has filled,
/// where there is room to make each of its symbols unique.
pub proof fn lemma_expand_arg_succeeds(
    pattern: SpannedModel<ArgModel>,
    bindings: BindingsModel,
    seed: u64,
    bases: Set<Seq<char>>,
    taken: Set<Seq<char>>,
)
    requires
        arg_within(pattern.item, bases),
        self_named(bindings),
        bindings.dom().subset_of(taken),
        bases.subset_of(taken),
        has_room(bases, taken, seed),
    ensures
        expanded_arg(pattern, bindings, seed).0 is Ok,
        self_named(expanded_arg(pattern, bindings, seed).1),
        expanded_arg(pattern, bindings, seed).1.dom().subset_of(taken),
    decreases pattern,
{
    reveal(arg_of);
    reveal(rebuilt);
    match pattern.item {
        ArgModel::Keyword(_) => {},
        ArgModel::Symbol(name) => {
            assert(arg_mentions(pattern.item, name));
            lemma_resolve_succeeds(name, pattern.span, bindings, seed, bases, taken);
        },
        ArgModel::Group(patterns) => {
            assert forall|other: Seq<char>| #[trigger]
                args_mention(patterns, other) implies bases.contains(other) by {
                assert(arg_mentions(pattern.item, other));
            }
            lemma_expand_args_succeeds(patterns, bindings, seed, bases, taken);
        },
    }
}

/// A row of argument patterns expands against bindings that expansion alone has filled,
/// where there is room to make each of its symbols unique.
pub proof fn lemma_expand_args_succeeds(
    patterns: Seq<SpannedModel<ArgModel>>,
    bindings: BindingsModel,
    seed: u64,
    bases: Set<Seq<char>>,
    taken: Set<Seq<char>>,
)
    requires
        args_within(patterns, bases),
        self_named(bindings),
        bindings.dom().subset_of(taken),
        bases.subset_of(taken),
        has_room(bases, taken, seed),
    ensures
        expanded_args(patterns, bindings, seed).0 is Ok,
        self_named(expanded_args(patterns, bindings, seed).1),
        expanded_args(patterns, bindings, seed).1.dom().subset_of(taken),
    decreases patterns,
{
    reveal(extended);
    if patterns.len() > 0 {
        let shorter = patterns.drop_last();
        assert forall|other: Seq<char>| #[trigger]
            args_mention(shorter, other) implies bases.contains(other) by {
            assert(args_mention(patterns, other));
        }
        assert forall|other: Seq<char>| #[trigger]
            arg_mentions(patterns.last().item, other) implies bases.contains(other) by {
            assert(args_mention(patterns, other));
        }
        lemma_expand_args_succeeds(shorter, bindings, seed, bases, taken);
        let front = expanded_args(shorter, bindings, seed);
        lemma_expand_arg_succeeds(patterns.last(), front.1, seed, bases, taken);
    }
}

/// A pattern expands against bindings that expansion alone has filled,
/// where there is room to make each of its symbols unique.
pub proof fn lemma_expand_pattern_succeeds(
    pattern: SpannedModel<PatternModel>,
    bindings: BindingsModel,
    seed: u64,
    bases: Set<Seq<char>>,
    taken: Set<Seq<char>>,
)
    requires
        pattern_within(pattern.item, bases),
        self_named(bindings),
        bindings.dom().subset_of(taken),
        bases.subset_of(taken),
        has_room(bases, taken, seed),
    ensures
        expanded_pattern(pattern, bindings, seed).0 is Ok,
        self_named(expanded_pattern(pattern, bindings, seed).1),
        expanded_pattern(pattern, bindings, seed).1.dom().subset_of(taken),
    decreases pattern,
{
    reveal(pattern_of);
    reveal(rebuilt);
    match pattern.item {
        PatternModel::Symbol(name) => {
            assert(pattern_mentions(pattern.item, name));
            lemma_resolve_succeeds(name, pattern.span, bindings, seed, bases, taken);
        },
        PatternModel::Data(_) => {},
        PatternModel::Label(name, inner) => {
            assert forall|other: Seq<char>| #[trigger]
                pattern_mentions(inner.item, other) implies bases.contains(other) by {
                assert(pattern_mentions(pattern.item, other));
            }
            lemma_expand_pattern_succeeds(*inner, bindings, seed, bases, taken);
        },
        PatternModel::Chain(patterns) => {
            assert forall|other: Seq<char>| #[trigger]
                patterns_mention(patterns, other) implies bases.contains(other) by {
                assert(pattern_mentions(pattern.item, other));
            }
            lemma_expand_patterns_succeeds(patterns, bindings, seed, bases, taken);
        },
        PatternModel::Tuple(patterns) => {
            assert forall|other: Seq<char>| #[trigger]
                patterns_mention(patterns, other) implies bases.contains(other) by {
                assert(pattern_mentions(pattern.item, other));
            }
            lemma_expand_patterns_succeeds(patterns, bindings, seed, bases, taken);
        },
    }
}

/// A row of patterns expands against bindings that expansion alone has filled,
/// where there is room to make each of its symbols unique.
pub proof fn lemma_expand_patterns_succeeds(
    patterns: Seq<SpannedModel<PatternModel>>,
    bindings: BindingsModel,
    seed: u64,
    bases: Set<Seq<char>>,
    taken: Set<Seq<char>>,
)
    requires
        patterns_within(patterns, bases),
        self_named(bindings),
        bindings.dom().subset_of(taken),
        bases.subset_of(taken),
        has_room(bases, taken, seed),
    ensures
        expanded_patterns(patterns, bindings, seed).0 is Ok,
        self_named(expanded_patterns(patterns, bindings, seed).1),
        expanded_patterns(patterns, bindings, seed).1.dom().subset_of(taken),
    decreases patterns,
{
    reveal(extended);
    if patterns.len() > 0 {
        let shorter = patterns.drop_last();
        assert forall|other: Seq<char>| #[trigger]
            patterns_mention(shorter, other) implies bases.contains(other) by {
            assert(patterns_mention(patterns, other));
        }
        assert forall|other: Seq<char>| #[trigger]
            pattern_mentions(patterns.last().item, other) implies bases.contains(other) by {
            assert(patterns_mention(patterns, other));
        }
        lemma_expand_patterns_succeeds(shorter, bindings, seed, bases, taken);
        let front = expanded_patterns(shorter, bindings, seed);
        lemma_expand_pattern_succeeds(patterns.last(), front.1, seed, bases, taken);
    }
}

/// A tree that holds no macro expands against bindings that expansion alone has filled,
/// where there is room to make each of its symbols unique.
pub proof fn lemma_expand_succeeds_among(
    tree: SpannedModel<AstModel>,
    bindings: BindingsModel,
    seed: u64,
    bases: Set<Seq<char>>,
    taken: Set<Seq<char>>,
)
    requires
        tree_within(tree.item, bases),
        !holds_macro(tree.item),
        self_named(bindings),
        bindings.dom().subset_of(taken),
        bases.subset_of(taken),
        has_room(bases, taken, seed),
    ensures
        expanded(tree, bindings, seed).0 is Ok,
        self_named(expanded(tree, bindings, seed).1),
        expanded(tree, bindings, seed).1.dom().subset_of(taken),
    decreases tree,
{
    reveal(rebuilt);
    reveal(rebuilt_pair);
    match tree.item {
        AstModel::Symbol(name) => {
            assert(mentions(tree.item, name));
            lemma_resolve_succeeds(name, tree.span, bindings, seed, bases, taken);
        },
        AstModel::Data(_) => {},
        AstModel::Block(trees) => {
            assert forall|other: Seq<char>| #[trigger]
                all_mention(trees, other) implies bases.contains(other) by {
                assert(mentions(tree.item, other));
            }
            lemma_expand_all_succeeds_among(trees, bindings, seed, bases, taken);
        },
        AstModel::Form(trees) => {
            assert forall|other: Seq<char>| #[trigger]
                all_mention(trees, other) implies bases.contains(other) by {
                assert(mentions(tree.item, other));
            }
            lemma_expand_all_succeeds_among(trees, bindings, seed, bases, taken);
        },
        AstModel::Group(inner) => {
            assert forall|other: Seq<char>| #[trigger]
                mentions(inner.item, other) implies bases.contains(other) by {
                assert(mentions(tree.item, other));
            }
            lemma_expand_succeeds_among(*inner, bindings, seed, bases, taken);
        },
        AstModel::Composition { argument, function } => {
            assert forall|other: Seq<char>| #[trigger]
                mentions(argument.item, other) implies bases.contains(other) by {
                assert(mentions(tree.item, other));
            }
            assert forall|other: Seq<char>| #[trigger]
                mentions(function.item, other) implies bases.contains(other) by {
                assert(mentions(tree.item, other));
            }
            lemma_expand_succeeds_among(*argument, bindings, seed, bases, taken);
            let first = expanded(*argument, bindings, seed);
            lemma_expand_succeeds_among(*function, first.1, seed, bases, taken);
        },
        AstModel::CSTPattern(pattern) => {
            assert forall|other: Seq<char>| #[trigger]
                pattern_mentions(pattern, other) implies bases.contains(other) by {
                assert(mentions(tree.item, other));
            }
            lemma_expand_pattern_succeeds(
                SpannedModel { item: pattern, span: tree.span },
                bindings,
                seed,
                bases,
                taken,
            );
        },
        AstModel::ArgPattern(pattern) => {
            assert forall|other: Seq<char>| #[trigger]
                arg_mentions(pattern, other) implies bases.contains(other) by {
                assert(mentions(tree.item, other));
            }
            lemma_expand_arg_succeeds(
                SpannedModel { item: pattern, span: tree.span },
                bindings,
                seed,
                bases,
                taken,
            );
        },
        AstModel::Assign { pattern, expression } => {
            assert forall|other: Seq<char>| #[trigger]
                pattern_mentions(pattern.item, other) implies bases.contains(other) by {
                assert(mentions(tree.item, other));
            }
            assert forall|other: Seq<char>| #[trigger]
                mentions(expression.item, other) implies bases.contains(other) by {
                assert(mentions(tree.item, other));
            }
            lemma_expand_pattern_succeeds(*pattern, bindings, seed, bases, taken);
            let first = expanded_pattern(*pattern, bindings, seed);
            lemma_expand_succeeds_among(*expression, first.1, seed, bases, taken);
        },
        AstModel::Lambda { pattern, expression } => {
            assert forall|other: Seq<char>| #[trigger]
                pattern_mentions(pattern.item, other) implies bases.contains(other) by {
                assert(mentions(tree.item, other));
            }
            assert forall|other: Seq<char>| #[trigger]
                mentions(expression.item, other) implies bases.contains(other) by {
                assert(mentions(tree.item, other));
            }
            lemma_expand_pattern_succeeds(*pattern, bindings, seed, bases, taken);
            let first = expanded_pattern(*pattern, bindings, seed);
            lemma_expand_succeeds_among(*expression, first.1, seed, bases, taken);
        },
        AstModel::Label(kind, inner) => {
            assert forall|other: Seq<char>| #[trigger]
                mentions(inner.item, other) implies bases.contains(other) by {
                assert(mentions(tree.item, other));
            }
            lemma_expand_succeeds_among(*inner, bindings, seed, bases, taken);
        },
        AstModel::Tuple(trees) => {
            assert forall|other: Seq<char>| #[trigger]
                all_mention(trees, other) implies bases.contains(other) by {
                assert(mentions(tree.item, other));
            }
            lemma_expand_all_succeeds_among(trees, bindings, seed, bases, taken);
        },
        AstModel::Syntax { arg_pat, expression } => {},
        AstModel::FFI { name, expression } => {
            assert forall|other: Seq<char>| #[trigger]
                mentions(expression.item, other) implies bases.contains(other) by {
                assert(mentions(tree.item, other));
            }
            lemma_expand_succeeds_among(*expression, bindings, seed, bases, taken);
        },
    }
}

/// A row of trees that hold no macro expands against bindings that expansion alone has filled,
/// where there is room to make each of its symbols unique.
pub proof fn lemma_expand_all_succeeds_among(
    trees: Seq<SpannedModel<AstModel>>,
    bindings: BindingsModel,
    seed: u64,
    bases: Set<Seq<char>>,
    taken: Set<Seq<char>>,
)
    requires
        trees_within(trees, bases),
        !any_holds_macro(trees),
        self_named(bindings),
        bindings.dom().subset_of(taken),
        bases.subset_of(taken),
        has_room(bases, taken, seed),
    ensures
        expanded_all(trees, bindings, seed).0 is Ok,
        self_named(expanded_all(trees, bindings, seed).1),
        expanded_all(trees, bindings, seed).1.dom().subset_of(taken),
    decreases trees,
{
    reveal(extended);
    if trees.len() > 0 {
        let shorter = trees.drop_last();
        assert forall|other: Seq<char>| #[trigger]
            all_mention(shorter, other) implies bases.contains(other) by {
            assert(all_mention(trees, other));
        }
        assert forall|other: Seq<char>| #[trigger]
            mentions(trees.last().item, other) implies bases.contains(other) by {
            assert(all_mention(trees, other));
        }
        lemma_expand_all_succeeds_among(shorter, bindings, seed, bases, taken);
        let front = expanded_all(shorter, bindings, seed);
        lemma_expand_succeeds_among(trees.last(), front.1, seed, bases, taken);
    }
}

/// A tree that holds no macro expands against bindings that expansion alone has filled,
/// where some stamp makes each of its symbols a name that is neither a symbol of the tree
/// nor bound.
pub proof fn lemma_expand_succeeds(tree: SpannedModel<AstModel>, bindings: BindingsModel, seed: u64)
    requires
        !holds_macro(tree.item),
        self_named(bindings),
        has_room_for(tree.item, bindings, seed),
    ensures
        expanded(tree, bindings, seed).0 is Ok,
{
    let bases = Set::new(|base: Seq<char>| mentions(tree.item, base));
    let taken = bases.union(bindings.dom());
    assert forall|base: Seq<char>| #[trigger] bases.contains(base) implies exists|tries: nat|
        tries < TRIES && !taken.contains(#[trigger] tagged(base, seed, tries)) by {
        assert(mentions(tree.item, base));
        let tries = choose|tries: nat|
            tries < TRIES && !mentions(tree.item, #[trigger] tagged(base, seed, tries))
                && !bindings.contains_key(tagged(base, seed, tries));
        assert(tries < TRIES && !taken.contains(tagged(base, seed, tries)));
    }
    lemma_expand_succeeds_among(tree, bindings, seed, bases, taken);
}

/// Whether later bindings hold all that earlier ones held, unchanged.
pub open spec fn extends(earlier: BindingsModel, later: BindingsModel) -> bool {
    forall|name: Seq<char>| #[trigger]
        earlier.contains_key(name) ==> later.contains_key(name) && later[name] == earlier[name]
}

/// The renaming that bindings stand for: a name that is bound to a symbol becomes
/// that symbol, and any other name stays as it is.
pub open spec fn name_in(bindings: BindingsModel) -> spec_fn(Seq<char>) -> Seq<char> {
    |name: Seq<char>|
        if bindings.contains_key(name) && bindings[name].item is Symbol {
            bindings[name].item->Symbol_0
        } else {
            name
        }
}

/// The renaming that changes no name.
pub open spec fn same_name() -> spec_fn(Seq<char>) -> Seq<char> {
    |name: Seq<char>| name
}

/// An argument pattern with each of its symbols renamed, without its spans.
/// Symbols of the same name get the same name.
pub open spec fn arg_renamed(item: ArgModel, rename: spec_fn(Seq<char>) -> Seq<char>) -> ArgModel
    decreases item,
{
    match item {
        ArgModel::Keyword(name) => ArgModel::Keyword(name),
        ArgModel::Symbol(name) => ArgModel::Symbol(rename(name)),
        ArgModel::Group(patterns) => ArgModel::Group(args_renamed(patterns, rename)),
    }
}

/// Each of a row renamed, without its spans.
pub open spec fn args_renamed(patterns: Seq<SpannedModel<ArgModel>>, rename: spec_fn(Seq<char>) -> Seq<char>) -> Seq<
    SpannedModel<ArgModel>,
>
    decreases patterns,
{
    if patterns.len() == 0 {
        Seq::empty()
    } else {
        args_renamed(patterns.drop_last(), rename).push(bare(arg_renamed(patterns.last().item, rename)))
    }
}

/// A pattern with each of its symbols renamed, without its spans.
/// Symbols of the same name get the same name.
pub open spec fn pattern_renamed(item: PatternModel, rename: spec_fn(Seq<char>) -> Seq<char>) -> PatternModel
    decreases item,
{
    match item {
        PatternModel::Symbol(name) => PatternModel::Symbol(rename(name)),
        PatternModel::Data(data) => PatternModel::Data(data),
        PatternModel::Label(name, inner) => PatternModel::Label(
            name,
            Box::new(bare(pattern_renamed(inner.item, rename))),
        ),
        PatternModel::Chain(patterns) => PatternModel::Chain(patterns_renamed(patterns, rename)),
        PatternModel::Tuple(patterns) => PatternModel::Tuple(patterns_renamed(patterns, rename)),
    }
}

/// Each of a row renamed, without its spans.
pub open spec fn patterns_renamed(patterns: Seq<SpannedModel<PatternModel>>, rename: spec_fn(Seq<char>) -> Seq<char>) -> Seq<
    SpannedModel<PatternModel>,
>
    decreases patterns,
{
    if patterns.len() == 0 {
        Seq::empty()
    } else {
        patterns_renamed(patterns.drop_last(), rename).push(bare(pattern_renamed(patterns.last().item, rename)))
    }
}

/// A tree with each of its symbols renamed, without its spans.
/// Symbols of the same name get the same name; nothing else changes.
pub open spec fn renamed(item: AstModel, rename: spec_fn(Seq<char>) -> Seq<char>) -> AstModel
    decreases item,
{
    match item {
        AstModel::Symbol(name) => AstModel::Symbol(rename(name)),
        AstModel::Data(data) => AstModel::Data(data),
        AstModel::Block(trees) => AstModel::Block(all_renamed(trees, rename)),
        AstModel::Form(trees) => AstModel::Form(all_renamed(trees, rename)),
        AstModel::Group(inner) => AstModel::Group(Box::new(bare(renamed(inner.item, rename)))),
        AstModel::Composition { argument, function } => AstModel::Composition {
            argument: Box::new(bare(renamed(argument.item, rename))),
            function: Box::new(bare(renamed(function.item, rename))),
        },
        AstModel::CSTPattern(pattern) => AstModel::CSTPattern(pattern_renamed(pattern, rename)),
        AstModel::ArgPattern(pattern) => AstModel::ArgPattern(arg_renamed(pattern, rename)),
        AstModel::Assign { pattern, expression } => AstModel::Assign {
            pattern: Box::new(bare(pattern_renamed(pattern.item, rename))),
            expression: Box::new(bare(renamed(expression.item, rename))),
        },
        AstModel::Lambda { pattern, expression } => AstModel::Lambda {
            pattern: Box::new(bare(pattern_renamed(pattern.item, rename))),
            expression: Box::new(bare(renamed(expression.item, rename))),
        },
        AstModel::Label(kind, inner) => AstModel::Label(
            kind,
            Box::new(bare(renamed(inner.item, rename))),
        ),
        AstModel::Tuple(trees) => AstModel::Tuple(all_renamed(trees, rename)),
        AstModel::Syntax { arg_pat, expression } => AstModel::Syntax {
            arg_pat: Box::new(bare(arg_renamed(arg_pat.item, rename))),
            expression: Box::new(bare(renamed(expression.item, rename))),
        },
        AstModel::FFI { name, expression } => AstModel::FFI {
            name,
            expression: Box::new(bare(renamed(expression.item, rename))),
        },
    }
}

/// Each of a row renamed, without its spans.
pub open spec fn all_renamed(trees: Seq<SpannedModel<AstModel>>, rename: spec_fn(Seq<char>) -> Seq<char>) -> Seq<
    SpannedModel<AstModel>,
>
    decreases trees,
{
    if trees.len() == 0 {
        Seq::empty()
    } else {
        all_renamed(trees.drop_last(), rename).push(bare(renamed(trees.last().item, rename)))
    }
}

/// Two renamings that agree on the symbols of an argument pattern rename it alike.
pub proof fn lemma_arg_renamed_agrees(item: ArgModel, f: spec_fn(Seq<char>) -> Seq<char>, g: spec_fn(Seq<char>) -> Seq<char>)
    requires
        forall|name: Seq<char>| #[trigger] arg_mentions(item, name) ==> f(name) == g(name),
    ensures
        arg_renamed(item, f) == arg_renamed(item, g),
    decreases item,
{
    match item {
        ArgModel::Keyword(_) => {},
        ArgModel::Symbol(name) => {
            assert(arg_mentions(item, name));
        },
        ArgModel::Group(patterns) => {
            assert forall|other: Seq<char>| #[trigger] args_mention(patterns, other) implies f(other) == g(
                other,
            ) by {
                assert(arg_mentions(item, other));
            }
            lemma_args_renamed_agrees(patterns, f, g);
        },
    }
}

/// Two renamings that agree on the symbols of a row rename the row alike.
pub proof fn lemma_args_renamed_agrees(patterns: Seq<SpannedModel<ArgModel>>, f: spec_fn(Seq<char>) -> Seq<char>, g: spec_fn(Seq<char>) -> Seq<char>)
    requires
        forall|name: Seq<char>| #[trigger] args_mention(patterns, name) ==> f(name) == g(name),
    ensures
        args_renamed(patterns, f) == args_renamed(patterns, g),
    decreases patterns,
{
    if patterns.len() > 0 {
        assert forall|other: Seq<char>| #[trigger]
            args_mention(patterns.drop_last(), other) implies f(other) == g(other) by {
            assert(args_mention(patterns, other));
        }
        assert forall|other: Seq<char>| #[trigger]
            arg_mentions(patterns.last().item, other) implies f(other) == g(other) by {
            assert(args_mention(patterns, other));
        }
        lemma_args_renamed_agrees(patterns.drop_last(), f, g);
        lemma_arg_renamed_agrees(patterns.last().item, f, g);
    }
}

/// Two renamings that agree on the symbols of a pattern rename it alike.
pub proof fn lemma_pattern_renamed_agrees(item: PatternModel, f: spec_fn(Seq<char>) -> Seq<char>, g: spec_fn(Seq<char>) -> Seq<char>)
    requires
        forall|name: Seq<char>| #[trigger] pattern_mentions(item, name) ==> f(name) == g(name),
    ensures
        pattern_renamed(item, f) == pattern_renamed(item, g),
    decreases item,
{
    match item {
        PatternModel::Symbol(name) => {
            assert(pattern_mentions(item, name));
        },
        PatternModel::Data(_) => {},
        PatternModel::Label(name, inner) => {
            assert forall|other: Seq<char>| #[trigger] pattern_mentions(inner.item, other) implies f(other) == g(
                other,
            ) by {
                assert(pattern_mentions(item, other));
            }
            lemma_pattern_renamed_agrees(inner.item, f, g);
        },
        PatternModel::Chain(patterns) => {
            assert forall|other: Seq<char>| #[trigger] patterns_mention(patterns, other) implies f(other) == g(
                other,
            ) by {
                assert(pattern_mentions(item, other));
            }
            lemma_patterns_renamed_agrees(patterns, f, g);
        },
        PatternModel::Tuple(patterns) => {
            assert forall|other: Seq<char>| #[trigger] patterns_mention(patterns, other) implies f(other) == g(
                other,
            ) by {
                assert(pattern_mentions(item, other));
            }
            lemma_patterns_renamed_agrees(patterns, f, g);
        },
    }
}

/// Two renamings that agree on the symbols of a row rename the row alike.
pub proof fn lemma_patterns_renamed_agrees(patterns: Seq<SpannedModel<PatternModel>>, f: spec_fn(Seq<char>) -> Seq<char>, g: spec_fn(Seq<char>) -> Seq<char>)
    requires
        forall|name: Seq<char>| #[trigger] patterns_mention(patterns, name) ==> f(name) == g(name),
    ensures
        patterns_renamed(patterns, f) == patterns_renamed(patterns, g),
    decreases patterns,
{
    if patterns.len() > 0 {
        assert forall|other: Seq<char>| #[trigger]
            patterns_mention(patterns.drop_last(), other) implies f(other) == g(other) by {
            assert(patterns_mention(patterns, other));
        }
        assert forall|other: Seq<char>| #[trigger]
            pattern_mentions(patterns.last().item, other) implies f(other) == g(other) by {
            assert(patterns_mention(patterns, other));
        }
        lemma_patterns_renamed_agrees(patterns.drop_last(), f, g);
        lemma_pattern_renamed_agrees(patterns.last().item, f, g);
    }
}

/// Two renamings that agree on the symbols of a tree rename it alike.
pub proof fn lemma_renamed_agrees(item: AstModel, f: spec_fn(Seq<char>) -> Seq<char>, g: spec_fn(Seq<char>) -> Seq<char>)
    requires
        forall|name: Seq<char>| #[trigger] mentions(item, name) ==> f(name) == g(name),
    ensures
        renamed(item, f) == renamed(item, g),
    decreases item,
{
    match item {
        AstModel::Symbol(name) => {
            assert(mentions(item, name));
        },
        AstModel::Data(_) => {},
        AstModel::Block(trees) => {
            assert forall|other: Seq<char>| #[trigger] all_mention(trees, other) implies f(other) == g(
                other,
            ) by {
                assert(mentions(item, other));
            }
            lemma_all_renamed_agrees(trees, f, g);
        },
        AstModel::Form(trees) => {
            assert forall|other: Seq<char>| #[trigger] all_mention(trees, other) implies f(other) == g(
                other,
            ) by {
                assert(mentions(item, other));
            }
            lemma_all_renamed_agrees(trees, f, g);
        },
        AstModel::Group(inner) => {
            assert forall|other: Seq<char>| #[trigger] mentions(inner.item, other) implies f(other) == g(
                other,
            ) by {
                assert(mentions(item, other));
            }
            lemma_renamed_agrees(inner.item, f, g);
        },
        AstModel::Composition { argument, function } => {
            assert forall|other: Seq<char>| #[trigger] mentions(argument.item, other) implies f(other) == g(
                other,
            ) by {
                assert(mentions(item, other));
            }
            assert forall|other: Seq<char>| #[trigger] mentions(function.item, other) implies f(other) == g(
                other,
            ) by {
                assert(mentions(item, other));
            }
            lemma_renamed_agrees(argument.item, f, g);
            lemma_renamed_agrees(function.item, f, g);
        },
        AstModel::CSTPattern(pattern) => {
            assert forall|other: Seq<char>| #[trigger] pattern_mentions(pattern, other) implies f(other) == g(
                other,
            ) by {
                assert(mentions(item, other));
            }
            lemma_pattern_renamed_agrees(pattern, f, g);
        },
        AstModel::ArgPattern(pattern) => {
            assert forall|other: Seq<char>| #[trigger] arg_mentions(pattern, other) implies f(other) == g(
                other,
            ) by {
                assert(mentions(item, other));
            }
            lemma_arg_renamed_agrees(pattern, f, g);
        },
        AstModel::Assign { pattern, expression } => {
            assert forall|other: Seq<char>| #[trigger] pattern_mentions(pattern.item, other) implies f(other) == g(
                other,
            ) by {
                assert(mentions(item, other));
            }
            assert forall|other: Seq<char>| #[trigger] mentions(expression.item, other) implies f(other) == g(
                other,
            ) by {
                assert(mentions(item, other));
            }
            lemma_pattern_renamed_agrees(pattern.item, f, g);
            lemma_renamed_agrees(expression.item, f, g);
        },
        AstModel::Lambda { pattern, expression } => {
            assert forall|other: Seq<char>| #[trigger] pattern_mentions(pattern.item, other) implies f(other) == g(
                other,
            ) by {
                assert(mentions(item, other));
            }
            assert forall|other: Seq<char>| #[trigger] mentions(expression.item, other) implies f(other) == g(
                other,
            ) by {
                assert(mentions(item, other));
            }
            lemma_pattern_renamed_agrees(pattern.item, f, g);
            lemma_renamed_agrees(expression.item, f, g);
        },
        AstModel::Label(kind, inner) => {
            assert forall|other: Seq<char>| #[trigger] mentions(inner.item, other) implies f(other) == g(
                other,
            ) by {
                assert(mentions(item, other));
            }
            lemma_renamed_agrees(inner.item, f, g);
        },
        AstModel::Tuple(trees) => {
            assert forall|other: Seq<char>| #[trigger] all_mention(trees, other) implies f(other) == g(
                other,
            ) by {
                assert(mentions(item, other));
            }
            lemma_all_renamed_agrees(trees, f, g);
        },
        AstModel::Syntax { arg_pat, expression } => {
            assert forall|other: Seq<char>| #[trigger] arg_mentions(arg_pat.item, other) implies f(other) == g(
                other,
            ) by {
                assert(mentions(item, other));
            }
            assert forall|other: Seq<char>| #[trigger] mentions(expression.item, other) implies f(other) == g(
                other,
            ) by {
                assert(mentions(item, other));
            }
            lemma_arg_renamed_agrees(arg_pat.item, f, g);
            lemma_renamed_agrees(expression.item, f, g);
        },
        AstModel::FFI { name, expression } => {
            assert forall|other: Seq<char>| #[trigger] mentions(expression.item, other) implies f(other) == g(
                other,
            ) by {
                assert(mentions(item, other));
            }
            lemma_renamed_agrees(expression.item, f, g);
        },
    }
}

/// Two renamings that agree on the symbols of a row rename the row alike.
pub proof fn lemma_all_renamed_agrees(trees: Seq<SpannedModel<AstModel>>, f: spec_fn(Seq<char>) -> Seq<char>, g: spec_fn(Seq<char>) -> Seq<char>)
    requires
        forall|name: Seq<char>| #[trigger] all_mention(trees, name) ==> f(name) == g(name),
    ensures
        all_renamed(trees, f) == all_renamed(trees, g),
    decreases trees,
{
    if trees.len() > 0 {
        assert forall|other: Seq<char>| #[trigger]
            all_mention(trees.drop_last(), other) implies f(other) == g(other) by {
            assert(all_mention(trees, other));
        }
        assert forall|other: Seq<char>| #[trigger]
            mentions(trees.last().item, other) implies f(other) == g(other) by {
            assert(all_mention(trees, other));
        }
        lemma_all_renamed_agrees(trees.drop_last(), f, g);
        lemma_renamed_agrees(trees.last().item, f, g);
    }
}

/// Bindings that hold all that others held, which hold all that yet others held,
/// hold all that those held.
pub proof fn lemma_extends_twice(first: BindingsModel, second: BindingsModel, third: BindingsModel)
    requires
        extends(first, second),
        extends(second, third),
    ensures
        extends(first, third),
{
    assert forall|name: Seq<char>| #[trigger] first.contains_key(name) implies third.contains_key(
        name,
    ) && third[name] == first[name] by {
        assert(second.contains_key(name));
    }
}

/// A symbol resolves to what it is bound to afterwards, and nothing that was bound changes.
pub proof fn lemma_resolve_renames(
    name: Seq<char>,
    span: SpanModel,
    bindings: BindingsModel,
    seed: u64,
)
    requires
        self_named(bindings),
    ensures
        self_named(resolved(name, span, bindings, seed).1),
        extends(bindings, resolved(name, span, bindings, seed).1),
        resolved(name, span, bindings, seed).0 is Ok ==> {
            let after = resolved(name, span, bindings, seed).1;
            &&& after.contains_key(name)
            &&& after[name].item is Symbol
            &&& resolved(name, span, bindings, seed).0->Ok_0 == after[name]
        },
{
    reveal(resolved);
    lemma_resolve_keeps_name(name, span, bindings, seed);
    if bindings.contains_key(name) {
    } else {
        let after = resolved(name, span, bindings, seed).1;
        assert forall|other: Seq<char>| #[trigger] bindings.contains_key(other) implies after.contains_key(
            other,
        ) && after[other] == bindings[other] by {}
        if resolved(name, span, bindings, seed).0 is Ok {
            assert(after.contains_key(name));
        }
    }
}

/// Expanding an argument pattern against bindings that expansion alone has filled renames
/// its symbols as the bindings say afterwards, and changes nothing else but spans.
pub proof fn lemma_expand_arg_renames(
    pattern: SpannedModel<ArgModel>,
    bindings: BindingsModel,
    seed: u64,
)
    requires
        self_named(bindings),
    ensures
        self_named(expanded_arg(pattern, bindings, seed).1),
        extends(bindings, expanded_arg(pattern, bindings, seed).1),
        expanded_arg(pattern, bindings, seed).0 is Ok ==> {
            let after = expanded_arg(pattern, bindings, seed).1;
            &&& forall|name: Seq<char>| #[trigger] arg_mentions(pattern.item, name) ==> after.contains_key(name)
            &&& arg_renamed(expanded_arg(pattern, bindings, seed).0->Ok_0.item, same_name()) == arg_renamed(
                pattern.item,
                name_in(after),
            )
        },
    decreases pattern,
{
    reveal(arg_of);
    reveal(rebuilt);
    match pattern.item {
        ArgModel::Keyword(_) => {
            assert forall|name: Seq<char>| #[trigger]
                bindings.contains_key(name) implies bindings.contains_key(name) && bindings[name]
                == bindings[name] by {}
        },
        ArgModel::Symbol(name) => {
            lemma_resolve_renames(name, pattern.span, bindings, seed);
            let found = resolved(name, pattern.span, bindings, seed);
            if found.0 is Ok {
                let unique = found.1[name].item->Symbol_0;
                assert(found.0->Ok_0.item == AstModel::Symbol(unique));
                assert(name_in(found.1)(name) == unique);
                assert(same_name()(unique) == unique);
            }
        },
        ArgModel::Group(patterns) => {
            lemma_expand_args_renames(patterns, bindings, seed);
            let found = expanded_args(patterns, bindings, seed);
            if found.0 is Ok {
                assert forall|other: Seq<char>| #[trigger]
                    arg_mentions(pattern.item, other) implies found.1.contains_key(other) by {
                    assert(args_mention(patterns, other));
                }
            }
        },
    }
}

/// Expanding a row against bindings that expansion alone has filled renames its symbols
/// as the bindings say afterwards, and changes nothing else but spans.
pub proof fn lemma_expand_args_renames(patterns: Seq<SpannedModel<ArgModel>>, bindings: BindingsModel, seed: u64)
    requires
        self_named(bindings),
    ensures
        self_named(expanded_args(patterns, bindings, seed).1),
        extends(bindings, expanded_args(patterns, bindings, seed).1),
        expanded_args(patterns, bindings, seed).0 is Ok ==> {
            let after = expanded_args(patterns, bindings, seed).1;
            &&& forall|name: Seq<char>| #[trigger] args_mention(patterns, name) ==> after.contains_key(name)
            &&& args_renamed(expanded_args(patterns, bindings, seed).0->Ok_0, same_name()) == args_renamed(
                patterns,
                name_in(after),
            )
        },
    decreases patterns,
{
    reveal(extended);
    if patterns.len() > 0 {
        let shorter = patterns.drop_last();
        let front = expanded_args(shorter, bindings, seed);
        lemma_expand_args_renames(shorter, bindings, seed);
        lemma_expand_arg_renames(patterns.last(), front.1, seed);
        let last = expanded_arg(patterns.last(), front.1, seed);
        let after = last.1;
        if front.0 is Ok && last.0 is Ok {
            let before = front.0->Ok_0;
            let done = before.push(last.0->Ok_0);
            assert(done.drop_last() =~= before);
            assert forall|other: Seq<char>| #[trigger] args_mention(shorter, other) implies name_in(
                front.1,
            )(other) == name_in(after)(other) by {
                assert(front.1.contains_key(other));
            }
            lemma_args_renamed_agrees(shorter, name_in(front.1), name_in(after));
            assert forall|name: Seq<char>| #[trigger]
                args_mention(patterns, name) implies after.contains_key(name) by {
                if args_mention(shorter, name) {
                    assert(front.1.contains_key(name));
                } else {
                    assert(arg_mentions(patterns.last().item, name));
                }
            }
        }
    }
}

/// Expanding a pattern against bindings that expansion alone has filled renames
/// its symbols as the bindings say afterwards, and changes nothing else but spans.
pub proof fn lemma_expand_pattern_renames(
    pattern: SpannedModel<PatternModel>,
    bindings: BindingsModel,
    seed: u64,
)
    requires
        self_named(bindings),
    ensures
        self_named(expanded_pattern(pattern, bindings, seed).1),
        extends(bindings, expanded_pattern(pattern, bindings, seed).1),
        expanded_pattern(pattern, bindings, seed).0 is Ok ==> {
            let after = expanded_pattern(pattern, bindings, seed).1;
            &&& forall|name: Seq<char>| #[trigger] pattern_mentions(pattern.item, name) ==> after.contains_key(name)
            &&& pattern_renamed(expanded_pattern(pattern, bindings, seed).0->Ok_0.item, same_name()) == pattern_renamed(
                pattern.item,
                name_in(after),
            )
        },
    decreases pattern,
{
    reveal(pattern_of);
    reveal(rebuilt);
    match pattern.item {
        PatternModel::Symbol(name) => {
            lemma_resolve_renames(name, pattern.span, bindings, seed);
            let found = resolved(name, pattern.span, bindings, seed);
            if found.0 is Ok {
                let unique = found.1[name].item->Symbol_0;
                assert(found.0->Ok_0.item == AstModel::Symbol(unique));
                assert(name_in(found.1)(name) == unique);
                assert(same_name()(unique) == unique);
            }
        },
        PatternModel::Data(_) => {
            assert forall|name: Seq<char>| #[trigger]
                bindings.contains_key(name) implies bindings.contains_key(name) && bindings[name]
                == bindings[name] by {}
        },
        PatternModel::Label(name, inner) => {
            lemma_expand_pattern_renames(*inner, bindings, seed);
            let found = expanded_pattern(*inner, bindings, seed);
            if found.0 is Ok {
                assert forall|other: Seq<char>| #[trigger]
                    pattern_mentions(pattern.item, other) implies found.1.contains_key(other) by {
                    assert(pattern_mentions(inner.item, other));
                }
            }
        },
        PatternModel::Chain(patterns) => {
            lemma_expand_patterns_renames(patterns, bindings, seed);
            let found = expanded_patterns(patterns, bindings, seed);
            if found.0 is Ok {
                assert forall|other: Seq<char>| #[trigger]
                    pattern_mentions(pattern.item, other) implies found.1.contains_key(other) by {
                    assert(patterns_mention(patterns, other));
                }
            }
        },
        PatternModel::Tuple(patterns) => {
            lemma_expand_patterns_renames(patterns, bindings, seed);
            let found = expanded_patterns(patterns, bindings, seed);
            if found.0 is Ok {
                assert forall|other: Seq<char>| #[trigger]
                    pattern_mentions(pattern.item, other) implies found.1.contains_key(other) by {
                    assert(patterns_mention(patterns, other));
                }
            }
        },
    }
}

/// Expanding a row against bindings that expansion alone has filled renames its symbols
/// as the bindings say afterwards, and changes nothing else but spans.
pub proof fn lemma_expand_patterns_renames(patterns: Seq<SpannedModel<PatternModel>>, bindings: BindingsModel, seed: u64)
    requires
        self_named(bindings),
    ensures
        self_named(expanded_patterns(patterns, bindings, seed).1),
        extends(bindings, expanded_patterns(patterns, bindings, seed).1),
        expanded_patterns(patterns, bindings, seed).0 is Ok ==> {
            let after = expanded_patterns(patterns, bindings, seed).1;
            &&& forall|name: Seq<char>| #[trigger] patterns_mention(patterns, name) ==> after.contains_key(name)
            &&& patterns_renamed(expanded_patterns(patterns, bindings, seed).0->Ok_0, same_name()) == patterns_renamed(
                patterns,
                name_in(after),
            )
        },
    decreases patterns,
{
    reveal(extended);
    if patterns.len() > 0 {
        let shorter = patterns.drop_last();
        let front = expanded_patterns(shorter, bindings, seed);
        lemma_expand_patterns_renames(shorter, bindings, seed);
        lemma_expand_pattern_renames(patterns.last(), front.1, seed);
        let last = expanded_pattern(patterns.last(), front.1, seed);
        let after = last.1;
        if front.0 is Ok && last.0 is Ok {
            let before = front.0->Ok_0;
            let done = before.push(last.0->Ok_0);
            assert(done.drop_last() =~= before);
            assert forall|other: Seq<char>| #[trigger] patterns_mention(shorter, other) implies name_in(
                front.1,
            )(other) == name_in(after)(other) by {
                assert(front.1.contains_key(other));
            }
            lemma_patterns_renamed_agrees(shorter, name_in(front.1), name_in(after));
            assert forall|name: Seq<char>| #[trigger]
                patterns_mention(patterns, name) implies after.contains_key(name) by {
                if patterns_mention(shorter, name) {
                    assert(front.1.contains_key(name));
                } else {
                    assert(pattern_mentions(patterns.last().item, name));
                }
            }
        }
    }
}

/// Expanding a tree against bindings that expansion alone has filled renames its symbols
/// as the bindings say afterwards, and changes nothing else but spans.
/// So symbols of the same name come out with the same name.
pub proof fn lemma_expand_renames(tree: SpannedModel<AstModel>, bindings: BindingsModel, seed: u64)
    requires
        self_named(bindings),
    ensures
        self_named(expanded(tree, bindings, seed).1),
        extends(bindings, expanded(tree, bindings, seed).1),
        expanded(tree, bindings, seed).0 is Ok ==> {
            let after = expanded(tree, bindings, seed).1;
            &&& forall|name: Seq<char>| #[trigger] mentions(tree.item, name) ==> after.contains_key(name)
            &&& renamed(expanded(tree, bindings, seed).0->Ok_0.item, same_name()) == renamed(
                tree.item,
                name_in(after),
            )
        },
    decreases tree,
{
    reveal(rebuilt);
    reveal(rebuilt_pair);
    match tree.item {
        AstModel::Symbol(name) => {
            lemma_resolve_renames(name, tree.span, bindings, seed);
            let found = resolved(name, tree.span, bindings, seed);
            if found.0 is Ok {
                let unique = found.1[name].item->Symbol_0;
                assert(found.0->Ok_0.item == AstModel::Symbol(unique));
                assert(name_in(found.1)(name) == unique);
                assert(same_name()(unique) == unique);
            }
        },
        AstModel::Data(_) => {
            assert forall|name: Seq<char>| #[trigger]
                bindings.contains_key(name) implies bindings.contains_key(name) && bindings[name]
                == bindings[name] by {}
        },
        AstModel::Block(trees) => {
            lemma_expand_all_renames(trees, bindings, seed);
            let found = expanded_all(trees, bindings, seed);
            if found.0 is Ok {
                assert forall|other: Seq<char>| #[trigger]
                    mentions(tree.item, other) implies found.1.contains_key(other) by {
                    assert(all_mention(trees, other));
                }
            }
        },
        AstModel::Form(trees) => {
            lemma_expand_all_renames(trees, bindings, seed);
            let found = expanded_all(trees, bindings, seed);
            if found.0 is Ok {
                assert forall|other: Seq<char>| #[trigger]
                    mentions(tree.item, other) implies found.1.contains_key(other) by {
                    assert(all_mention(trees, other));
                }
            }
        },
        AstModel::Group(inner) => {
            lemma_expand_renames(*inner, bindings, seed);
            let found = expanded(*inner, bindings, seed);
            if found.0 is Ok {
                assert forall|other: Seq<char>| #[trigger]
                    mentions(tree.item, other) implies found.1.contains_key(other) by {
                    assert(mentions(inner.item, other));
                }
            }
        },
        AstModel::Composition { argument, function } => {
            lemma_expand_renames(*argument, bindings, seed);
            let first = expanded(*argument, bindings, seed);
            lemma_expand_renames(*function, first.1, seed);
            let second = expanded(*function, first.1, seed);
            lemma_extends_twice(bindings, first.1, second.1);
            if first.0 is Ok && second.0 is Ok {
                assert forall|other: Seq<char>| #[trigger]
                    mentions(argument.item, other) implies name_in(first.1)(other) == name_in(
                    second.1,
                )(other) by {
                    assert(first.1.contains_key(other));
                }
                lemma_renamed_agrees(argument.item, name_in(first.1), name_in(second.1));
                assert forall|name: Seq<char>| #[trigger]
                    mentions(tree.item, name) implies second.1.contains_key(name) by {
                    if mentions(argument.item, name) {
                        assert(first.1.contains_key(name));
                    } else {
                        assert(mentions(function.item, name));
                    }
                }
            }
        },
        AstModel::CSTPattern(pattern) => {
            let spanned = SpannedModel { item: pattern, span: tree.span };
            lemma_expand_pattern_renames(spanned, bindings, seed);
            let found = expanded_pattern(spanned, bindings, seed);
            if found.0 is Ok {
                assert forall|other: Seq<char>| #[trigger]
                    mentions(tree.item, other) implies found.1.contains_key(other) by {
                    assert(pattern_mentions(spanned.item, other));
                }
            }
        },
        AstModel::ArgPattern(pattern) => {
            let spanned = SpannedModel { item: pattern, span: tree.span };
            lemma_expand_arg_renames(spanned, bindings, seed);
            let found = expanded_arg(spanned, bindings, seed);
            if found.0 is Ok {
                assert forall|other: Seq<char>| #[trigger]
                    mentions(tree.item, other) implies found.1.contains_key(other) by {
                    assert(arg_mentions(spanned.item, other));
                }
            }
        },
        AstModel::Assign { pattern, expression } => {
            lemma_expand_pattern_renames(*pattern, bindings, seed);
            let first = expanded_pattern(*pattern, bindings, seed);
            lemma_expand_renames(*expression, first.1, seed);
            let second = expanded(*expression, first.1, seed);
            lemma_extends_twice(bindings, first.1, second.1);
            if first.0 is Ok && second.0 is Ok {
                assert forall|other: Seq<char>| #[trigger]
                    pattern_mentions(pattern.item, other) implies name_in(first.1)(other) == name_in(
                    second.1,
                )(other) by {
                    assert(first.1.contains_key(other));
                }
                lemma_pattern_renamed_agrees(pattern.item, name_in(first.1), name_in(second.1));
                assert forall|name: Seq<char>| #[trigger]
                    mentions(tree.item, name) implies second.1.contains_key(name) by {
                    if pattern_mentions(pattern.item, name) {
                        assert(first.1.contains_key(name));
                    } else {
                        assert(mentions(expression.item, name));
                    }
                }
            }
        },
        AstModel::Lambda { pattern, expression } => {
            lemma_expand_pattern_renames(*pattern, bindings, seed);
            let first = expanded_pattern(*pattern, bindings, seed);
            lemma_expand_renames(*expression, first.1, seed);
            let second = expanded(*expression, first.1, seed);
            lemma_extends_twice(bindings, first.1, second.1);
            if first.0 is Ok && second.0 is Ok {
                assert forall|other: Seq<char>| #[trigger]
                    pattern_mentions(pattern.item, other) implies name_in(first.1)(other) == name_in(
                    second.1,
                )(other) by {
                    assert(first.1.contains_key(other));
                }
                lemma_pattern_renamed_agrees(pattern.item, name_in(first.1), name_in(second.1));
                assert forall|name: Seq<char>| #[trigger]
                    mentions(tree.item, name) implies second.1.contains_key(name) by {
                    if pattern_mentions(pattern.item, name) {
                        assert(first.1.contains_key(name));
                    } else {
                        assert(mentions(expression.item, name));
                    }
                }
            }
        },
        AstModel::Label(kind, inner) => {
            lemma_expand_renames(*inner, bindings, seed);
            let found = expanded(*inner, bindings, seed);
            if found.0 is Ok {
                assert forall|other: Seq<char>| #[trigger]
                    mentions(tree.item, other) implies found.1.contains_key(other) by {
                    assert(mentions(inner.item, other));
                }
            }
        },
        AstModel::Tuple(trees) => {
            lemma_expand_all_renames(trees, bindings, seed);
            let found = expanded_all(trees, bindings, seed);
            if found.0 is Ok {
                assert forall|other: Seq<char>| #[trigger]
                    mentions(tree.item, other) implies found.1.contains_key(other) by {
                    assert(all_mention(trees, other));
                }
            }
        },
        AstModel::Syntax { arg_pat, expression } => {
            assert forall|name: Seq<char>| #[trigger]
                bindings.contains_key(name) implies bindings.contains_key(name) && bindings[name]
                == bindings[name] by {}
        },
        AstModel::FFI { name, expression } => {
            lemma_expand_renames(*expression, bindings, seed);
            let found = expanded(*expression, bindings, seed);
            if found.0 is Ok {
                assert forall|other: Seq<char>| #[trigger]
                    mentions(tree.item, other) implies found.1.contains_key(other) by {
                    assert(mentions(expression.item, other));
                }
            }
        },
    }
}

/// Expanding a row against bindings that expansion alone has filled renames its symbols
/// as the bindings say afterwards, and changes nothing else but spans.
pub proof fn lemma_expand_all_renames(trees: Seq<SpannedModel<AstModel>>, bindings: BindingsModel, seed: u64)
    requires
        self_named(bindings),
    ensures
        self_named(expanded_all(trees, bindings, seed).1),
        extends(bindings, expanded_all(trees, bindings, seed).1),
        expanded_all(trees, bindings, seed).0 is Ok ==> {
            let after = expanded_all(trees, bindings, seed).1;
            &&& forall|name: Seq<char>| #[trigger] all_mention(trees, name) ==> after.contains_key(name)
            &&& all_renamed(expanded_all(trees, bindings, seed).0->Ok_0, same_name()) == all_renamed(
                trees,
                name_in(after),
            )
        },
    decreases trees,
{
    reveal(extended);
    if trees.len() > 0 {
        let shorter = trees.drop_last();
        let front = expanded_all(shorter, bindings, seed);
        lemma_expand_all_renames(shorter, bindings, seed);
        lemma_expand_renames(trees.last(), front.1, seed);
        let last = expanded(trees.last(), front.1, seed);
        let after = last.1;
        if front.0 is Ok && last.0 is Ok {
            let before = front.0->Ok_0;
            let done = before.push(last.0->Ok_0);
            assert(done.drop_last() =~= before);
            assert forall|other: Seq<char>| #[trigger] all_mention(shorter, other) implies name_in(
                front.1,
            )(other) == name_in(after)(other) by {
                assert(front.1.contains_key(other));
            }
            lemma_all_renamed_agrees(shorter, name_in(front.1), name_in(after));
            assert forall|name: Seq<char>| #[trigger]
                all_mention(trees, name) implies after.contains_key(name) by {
                if all_mention(shorter, name) {
                    assert(front.1.contains_key(name));
                } else {
                    assert(mentions(trees.last().item, name));
                }
            }
        }
    }
}

/// Expanding a tree that holds no macro, such as one that was expanded before,
/// with bindings that bind nothing yet, gives a tree again where there is room to make
/// each of its symbols unique. The tree that comes out has the shape of the one
/// that went in, and differs from it only in its spans and in the names of its symbols:
/// each symbol has the name that the bindings give it afterwards,
/// so symbols of the same name come out with the same name.
pub proof fn lemma_expand_again(tree: SpannedModel<AstModel>, seed: u64)
    requires
        !holds_macro(tree.item),
        has_room_for(tree.item, Map::empty(), seed),
    ensures
        expanded(tree, Map::empty(), seed).0 is Ok,
        shape(expanded(tree, Map::empty(), seed).0->Ok_0.item) == shape(tree.item),
        renamed(expanded(tree, Map::empty(), seed).0->Ok_0.item, same_name()) == renamed(
            tree.item,
            name_in(expanded(tree, Map::empty(), seed).1),
        ),
{
    lemma_expand_succeeds(tree, Map::empty(), seed);
    lemma_expand_keeps_shape(tree, Map::empty(), seed);
    lemma_expand_renames(tree, Map::empty(), seed);
}

} // verus!
