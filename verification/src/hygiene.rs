//! What expansion keeps: the keywords of a pattern,
//! and the names of the one who calls the macro.

use vstd::prelude::*;
use crate::ast::{ArgModel, AstModel, PatternModel};
use crate::bindings::BindingsModel;
use crate::expansion::{TRIES, arg_of, expanded, expanded_all, expanded_arg, expanded_args,
    expanded_pattern, expanded_patterns, extended, first_free, keywords_of, keywords_of_all,
    pattern_of, rebuilt, rebuilt_pair, resolved, unique_name};
use crate::span::{SpanModel, SpannedModel};
use crate::stamp::{stamp_text, tagged, untagged, lemma_untagged_of_tagged};

verus! {

/// None of `names` is bound to a tree that can be seen as an argument pattern
/// that holds a keyword.
pub open spec fn binds_no_keyword(bindings: BindingsModel, names: Set<Seq<char>>) -> bool {
    forall|name: Seq<char>|
        names.contains(name) && #[trigger] bindings.contains_key(name)
            ==> match bindings[name].item.as_arg_pattern() {
            Ok(item) => keywords_of(SpannedModel { item, span: bindings[name].span }).len() == 0,
            Err(_) => true,
        }
}

/// The names that stand in an argument pattern as symbols.
pub open spec fn arg_names(item: ArgModel) -> Set<Seq<char>> {
    Set::new(|name: Seq<char>| arg_mentions(item, name))
}

/// The first stamp that is free gives a name that is not taken.
pub proof fn lemma_first_free(base: Seq<char>, taken: Set<Seq<char>>, seed: u64, from: nat)
    ensures
        match first_free(base, taken, seed, from) {
            Some(tries) => from <= tries < TRIES && !taken.contains(tagged(base, seed, tries)),
            None => true,
        },
    decreases TRIES - from,
{
    if from < TRIES && taken.contains(tagged(base, seed, from)) {
        lemma_first_free(base, taken, seed, from + 1);
    }
}

/// Expanding an argument pattern keeps its keywords, in their order,
/// where none of its symbols is bound to a tree that brings a keyword in.
pub proof fn lemma_expand_arg_keeps_keywords(
    pattern: SpannedModel<ArgModel>,
    bindings: BindingsModel,
    seed: u64,
)
    requires
        binds_no_keyword(bindings, arg_names(pattern.item)),
    ensures
        expanded_arg(pattern, bindings, seed).0 is Ok ==> keywords_of(
            expanded_arg(pattern, bindings, seed).0->Ok_0,
        ) == keywords_of(pattern),
{
    lemma_expand_arg_keeps_keywords_among(pattern, bindings, seed, arg_names(pattern.item));
}

/// Expanding an argument pattern whose symbols are among `names` keeps its keywords,
/// where none of `names` is bound to a tree that brings a keyword in,
/// and none of them is so bound afterwards.
pub proof fn lemma_expand_arg_keeps_keywords_among(
    pattern: SpannedModel<ArgModel>,
    bindings: BindingsModel,
    seed: u64,
    names: Set<Seq<char>>,
)
    requires
        arg_within(pattern.item, names),
        binds_no_keyword(bindings, names),
    ensures
        binds_no_keyword(expanded_arg(pattern, bindings, seed).1, names),
        expanded_arg(pattern, bindings, seed).0 is Ok ==> keywords_of(
            expanded_arg(pattern, bindings, seed).0->Ok_0,
        ) == keywords_of(pattern),
    decreases pattern,
{
    reveal(arg_of);
    reveal(rebuilt);
    reveal(resolved);
    match pattern.item {
        ArgModel::Keyword(_) => {},
        ArgModel::Symbol(name) => {
            assert(arg_mentions(pattern.item, name));
            if bindings.contains_key(name) {
            } else {
                match unique_name(name, bindings.dom(), seed) {
                    Some(unique) => {
                        let symbol = SpannedModel { item: AstModel::Symbol(unique), span: pattern.span };
                        let after = bindings.insert(name, symbol);
                        assert forall|other: Seq<char>|
                            names.contains(other) && #[trigger] after.contains_key(
                                other,
                            ) implies match after[other].item.as_arg_pattern() {
                            Ok(item) => keywords_of(
                                SpannedModel { item, span: after[other].span },
                            ).len() == 0,
                            Err(_) => true,
                        } by {
                            if other != name {
                                assert(bindings.contains_key(other));
                            }
                        }
                    },
                    None => {},
                }
            }
        },
        ArgModel::Group(patterns) => {
            assert forall|other: Seq<char>| #[trigger]
                args_mention(patterns, other) implies names.contains(other) by {
                assert(arg_mentions(pattern.item, other));
            }
            lemma_expand_args_keeps_keywords_among(patterns, bindings, seed, names);
        },
    }
}

/// Expanding a row of argument patterns whose symbols are among `names` keeps their keywords,
/// in their order, where none of `names` is bound to a tree that brings a keyword in.
pub proof fn lemma_expand_args_keeps_keywords_among(
    patterns: Seq<SpannedModel<ArgModel>>,
    bindings: BindingsModel,
    seed: u64,
    names: Set<Seq<char>>,
)
    requires
        args_within(patterns, names),
        binds_no_keyword(bindings, names),
    ensures
        binds_no_keyword(expanded_args(patterns, bindings, seed).1, names),
        expanded_args(patterns, bindings, seed).0 is Ok ==> keywords_of_all(
            expanded_args(patterns, bindings, seed).0->Ok_0,
        ) == keywords_of_all(patterns),
    decreases patterns,
{
    reveal(extended);
    if patterns.len() > 0 {
        let shorter = patterns.drop_last();
        assert forall|other: Seq<char>| #[trigger]
            args_mention(shorter, other) implies names.contains(other) by {
            assert(args_mention(patterns, other));
        }
        assert forall|other: Seq<char>| #[trigger]
            arg_mentions(patterns.last().item, other) implies names.contains(other) by {
            assert(args_mention(patterns, other));
        }
        let front = expanded_args(shorter, bindings, seed);
        lemma_expand_args_keeps_keywords_among(shorter, bindings, seed, names);
        lemma_expand_arg_keeps_keywords_among(patterns.last(), front.1, seed, names);
        let last = expanded_arg(patterns.last(), front.1, seed);
        if front.0 is Ok && last.0 is Ok {
            let done = front.0->Ok_0.push(last.0->Ok_0);
            assert(done.drop_last() =~= front.0->Ok_0);
        }
    }
}

/// Whether a name stands in an argument pattern as a symbol.
pub open spec fn arg_mentions(item: ArgModel, name: Seq<char>) -> bool
    decreases item,
{
    match item {
        ArgModel::Keyword(_) => false,
        ArgModel::Symbol(symbol) => symbol == name,
        ArgModel::Group(patterns) => args_mention(patterns, name),
    }
}

/// Whether a name stands in one of a row of argument patterns as a symbol.
pub open spec fn args_mention(patterns: Seq<SpannedModel<ArgModel>>, name: Seq<char>) -> bool
    decreases patterns,
{
    if patterns.len() == 0 {
        false
    } else {
        args_mention(patterns.drop_last(), name) || arg_mentions(patterns.last().item, name)
    }
}

/// Whether a name stands in a pattern as a symbol.
pub open spec fn pattern_mentions(item: PatternModel, name: Seq<char>) -> bool
    decreases item,
{
    match item {
        PatternModel::Symbol(symbol) => symbol == name,
        PatternModel::Data(_) => false,
        PatternModel::Label(_, inner) => pattern_mentions(inner.item, name),
        PatternModel::Chain(patterns) => patterns_mention(patterns, name),
        PatternModel::Tuple(patterns) => patterns_mention(patterns, name),
    }
}

/// Whether a name stands in one of a row of patterns as a symbol.
pub open spec fn patterns_mention(patterns: Seq<SpannedModel<PatternModel>>, name: Seq<char>) -> bool
    decreases patterns,
{
    if patterns.len() == 0 {
        false
    } else {
        patterns_mention(patterns.drop_last(), name) || pattern_mentions(
            patterns.last().item,
            name,
        )
    }
}

/// Whether a name stands in a tree as a symbol.
pub open spec fn mentions(item: AstModel, name: Seq<char>) -> bool
    decreases item,
{
    match item {
        AstModel::Symbol(symbol) => symbol == name,
        AstModel::Data(_) => false,
        AstModel::Block(trees) => all_mention(trees, name),
        AstModel::Form(trees) => all_mention(trees, name),
        AstModel::Group(inner) => mentions(inner.item, name),
        AstModel::Composition { argument, function } => mentions(argument.item, name) || mentions(
            function.item,
            name,
        ),
        AstModel::CSTPattern(pattern) => pattern_mentions(pattern, name),
        AstModel::ArgPattern(pattern) => arg_mentions(pattern, name),
        AstModel::Assign { pattern, expression } => pattern_mentions(pattern.item, name)
            || mentions(expression.item, name),
        AstModel::Lambda { pattern, expression } => pattern_mentions(pattern.item, name)
            || mentions(expression.item, name),
        AstModel::Label(_, inner) => mentions(inner.item, name),
        AstModel::Tuple(trees) => all_mention(trees, name),
        AstModel::Syntax { arg_pat, expression } => arg_mentions(arg_pat.item, name) || mentions(
            expression.item,
            name,
        ),
        AstModel::FFI { name: _, expression } => mentions(expression.item, name),
    }
}

/// Whether a name stands in one of a row of trees as a symbol.
pub open spec fn all_mention(trees: Seq<SpannedModel<AstModel>>, name: Seq<char>) -> bool
    decreases trees,
{
    if trees.len() == 0 {
        false
    } else {
        all_mention(trees.drop_last(), name) || mentions(trees.last().item, name)
    }
}

/// Every name that stands in the argument pattern as a symbol is among `names`.
pub open spec fn arg_within(item: ArgModel, names: Set<Seq<char>>) -> bool {
    forall|name: Seq<char>| #[trigger] arg_mentions(item, name) ==> names.contains(name)
}

/// Every name that stands in one of the argument patterns as a symbol is among `names`.
pub open spec fn args_within(patterns: Seq<SpannedModel<ArgModel>>, names: Set<Seq<char>>) -> bool {
    forall|name: Seq<char>| #[trigger] args_mention(patterns, name) ==> names.contains(name)
}

/// Every name that stands in the pattern as a symbol is among `names`.
pub open spec fn pattern_within(item: PatternModel, names: Set<Seq<char>>) -> bool {
    forall|name: Seq<char>| #[trigger] pattern_mentions(item, name) ==> names.contains(name)
}

/// Every name that stands in one of the patterns as a symbol is among `names`.
pub open spec fn patterns_within(
    patterns: Seq<SpannedModel<PatternModel>>,
    names: Set<Seq<char>>,
) -> bool {
    forall|name: Seq<char>| #[trigger] patterns_mention(patterns, name) ==> names.contains(name)
}

/// Every name that stands in the tree as a symbol is among `names`.
pub open spec fn tree_within(item: AstModel, names: Set<Seq<char>>) -> bool {
    forall|name: Seq<char>| #[trigger] mentions(item, name) ==> names.contains(name)
}

/// Every name that stands in one of the trees as a symbol is among `names`.
pub open spec fn trees_within(trees: Seq<SpannedModel<AstModel>>, names: Set<Seq<char>>) -> bool {
    forall|name: Seq<char>| #[trigger] all_mention(trees, name) ==> names.contains(name)
}

/// Every name that stands in a bound tree as a symbol is among `names`.
pub open spec fn values_within(bindings: BindingsModel, names: Set<Seq<char>>) -> bool {
    forall|key: Seq<char>| #[trigger]
        bindings.contains_key(key) ==> tree_within(bindings[key].item, names)
}

/// Every name that one of `bases` can be made into, and that is not among `floor`,
/// is among `names`.
pub open spec fn fresh_within(
    bases: Set<Seq<char>>,
    floor: Set<Seq<char>>,
    seed: u64,
    names: Set<Seq<char>>,
) -> bool {
    forall|base: Seq<char>, tries: nat|
        bases.contains(base) && tries < TRIES && !floor.contains(
            #[trigger] tagged(base, seed, tries),
        ) ==> names.contains(tagged(base, seed, tries))
}

/// A node seen as a pattern holds no symbol that the node did not hold.
pub proof fn lemma_as_pattern_mentions(item: AstModel, name: Seq<char>)
    requires
        item.as_pattern() is Ok,
        pattern_mentions(item.as_pattern()->Ok_0, name),
    ensures
        mentions(item, name),
    decreases item,
{
    match item {
        AstModel::Label(kind, inner) => {
            lemma_as_pattern_mentions(inner.item, name);
        },
        AstModel::Form(items) => {
            lemma_as_patterns_mention(items, name);
        },
        AstModel::Tuple(items) => {
            lemma_as_patterns_mention(items, name);
        },
        _ => {},
    }
}

/// A row of nodes seen as patterns holds no symbol that the nodes did not hold.
pub proof fn lemma_as_patterns_mention(items: Seq<SpannedModel<AstModel>>, name: Seq<char>)
    requires
        AstModel::as_patterns(items) is Ok,
        patterns_mention(AstModel::as_patterns(items)->Ok_0, name),
    ensures
        all_mention(items, name),
    decreases items,
{
    if items.len() > 0 {
        let front = AstModel::as_patterns(items.drop_last())->Ok_0;
        let last = items.last().item.as_pattern()->Ok_0;
        let patterns = AstModel::as_patterns(items)->Ok_0;
        assert(patterns.drop_last() =~= front);
        assert(patterns.last().item == last);
        if patterns_mention(front, name) {
            lemma_as_patterns_mention(items.drop_last(), name);
        } else {
            assert(pattern_mentions(last, name));
            lemma_as_pattern_mentions(items.last().item, name);
        }
    }
}

/// A node seen as an argument pattern holds no symbol that the node did not hold.
pub proof fn lemma_as_arg_pattern_mentions(item: AstModel, name: Seq<char>)
    requires
        item.as_arg_pattern() is Ok,
        arg_mentions(item.as_arg_pattern()->Ok_0, name),
    ensures
        mentions(item, name),
    decreases item,
{
    match item {
        AstModel::Form(items) => {
            lemma_as_arg_patterns_mention(items, name);
        },
        _ => {},
    }
}

/// A row of nodes seen as argument patterns holds no symbol that the nodes did not hold.
pub proof fn lemma_as_arg_patterns_mention(items: Seq<SpannedModel<AstModel>>, name: Seq<char>)
    requires
        AstModel::as_arg_patterns(items) is Ok,
        args_mention(AstModel::as_arg_patterns(items)->Ok_0, name),
    ensures
        all_mention(items, name),
    decreases items,
{
    if items.len() > 0 {
        let front = AstModel::as_arg_patterns(items.drop_last())->Ok_0;
        let last = items.last().item.as_arg_pattern()->Ok_0;
        let patterns = AstModel::as_arg_patterns(items)->Ok_0;
        assert(patterns.drop_last() =~= front);
        assert(patterns.last().item == last);
        if args_mention(front, name) {
            lemma_as_arg_patterns_mention(items.drop_last(), name);
        } else {
            assert(arg_mentions(last, name));
            lemma_as_arg_pattern_mentions(items.last().item, name);
        }
    }
}

/// Resolving a symbol brings in no name but those of the bound trees
/// and those that the symbol can be made into.
pub proof fn lemma_resolve_within(
    name: Seq<char>,
    span: SpanModel,
    bindings: BindingsModel,
    seed: u64,
    bases: Set<Seq<char>>,
    floor: Set<Seq<char>>,
    names: Set<Seq<char>>,
)
    requires
        bases.contains(name),
        values_within(bindings, names),
        floor.subset_of(bindings.dom()),
        fresh_within(bases, floor, seed, names),
    ensures
        bindings.dom().subset_of(resolved(name, span, bindings, seed).1.dom()),
        values_within(resolved(name, span, bindings, seed).1, names),
        resolved(name, span, bindings, seed).0 is Ok ==> tree_within(
            resolved(name, span, bindings, seed).0->Ok_0.item,
            names,
        ),
{
    reveal(resolved);
    if !bindings.contains_key(name) {
        lemma_first_free(name, bindings.dom(), seed, 0);
        match first_free(name, bindings.dom(), seed, 0) {
            Some(tries) => {
                let unique = tagged(name, seed, tries);
                assert(!floor.contains(unique));
                assert(names.contains(unique));
                let symbol = SpannedModel { item: AstModel::Symbol(unique), span };
                let after = bindings.insert(name, symbol);
                assert(tree_within(symbol.item, names));
                assert forall|key: Seq<char>| #[trigger] after.contains_key(key) implies tree_within(
                    after[key].item,
                    names,
                ) by {
                    if key != name {
                        assert(bindings.contains_key(key));
                    }
                }
            },
            None => {},
        }
    } else {
        assert(bindings.contains_key(name));
    }
}

/// Expanding an argument pattern brings in no name but those of the bound trees
/// and those that its symbols can be made into.
pub proof fn lemma_expand_arg_within(
    pattern: SpannedModel<ArgModel>,
    bindings: BindingsModel,
    seed: u64,
    bases: Set<Seq<char>>,
    floor: Set<Seq<char>>,
    names: Set<Seq<char>>,
)
    requires
        arg_within(pattern.item, bases),
        values_within(bindings, names),
        floor.subset_of(bindings.dom()),
        fresh_within(bases, floor, seed, names),
    ensures
        bindings.dom().subset_of(expanded_arg(pattern, bindings, seed).1.dom()),
        values_within(expanded_arg(pattern, bindings, seed).1, names),
        expanded_arg(pattern, bindings, seed).0 is Ok ==> arg_within(
            expanded_arg(pattern, bindings, seed).0->Ok_0.item,
            names,
        ),
    decreases pattern,
{
    reveal(arg_of);
    reveal(rebuilt);
    match pattern.item {
        ArgModel::Keyword(_) => {},
        ArgModel::Symbol(name) => {
            assert(arg_mentions(pattern.item, name));
            lemma_resolve_within(name, pattern.span, bindings, seed, bases, floor, names);
            let found = resolved(name, pattern.span, bindings, seed);
            if found.0 is Ok && found.0->Ok_0.item.as_arg_pattern() is Ok {
                let tree = found.0->Ok_0;
                let item = tree.item.as_arg_pattern()->Ok_0;
                assert forall|other: Seq<char>| #[trigger]
                    arg_mentions(item, other) implies names.contains(other) by {
                    lemma_as_arg_pattern_mentions(tree.item, other);
                }
            }
        },
        ArgModel::Group(patterns) => {
            assert forall|other: Seq<char>| #[trigger]
                args_mention(patterns, other) implies bases.contains(other) by {
                assert(arg_mentions(pattern.item, other));
            }
            lemma_expand_args_within(patterns, bindings, seed, bases, floor, names);
            let found = expanded_args(patterns, bindings, seed);
            if found.0 is Ok {
                let done = found.0->Ok_0;
                assert forall|other: Seq<char>| #[trigger]
                    arg_mentions(ArgModel::Group(done), other) implies names.contains(other) by {
                    assert(args_mention(done, other));
                }
            }
        },
    }
}

/// Expanding a row of argument patterns brings in no name but those of the bound trees
/// and those that their symbols can be made into.
pub proof fn lemma_expand_args_within(
    patterns: Seq<SpannedModel<ArgModel>>,
    bindings: BindingsModel,
    seed: u64,
    bases: Set<Seq<char>>,
    floor: Set<Seq<char>>,
    names: Set<Seq<char>>,
)
    requires
        args_within(patterns, bases),
        values_within(bindings, names),
        floor.subset_of(bindings.dom()),
        fresh_within(bases, floor, seed, names),
    ensures
        bindings.dom().subset_of(expanded_args(patterns, bindings, seed).1.dom()),
        values_within(expanded_args(patterns, bindings, seed).1, names),
        expanded_args(patterns, bindings, seed).0 is Ok ==> args_within(
            expanded_args(patterns, bindings, seed).0->Ok_0,
            names,
        ),
    decreases patterns,
{
    reveal(extended);
    if patterns.len() > 0 {
        let shorter = patterns.drop_last();
        assert forall|other: Seq<char>| #[trigger]
            args_mention(shorter, other) implies bases.contains(other) by {
            assert(args_mention(patterns, other));
        }
        assert forall|other: Seq<char>| #[trigger]
            arg_mentions(patterns.last().item, other) implies bases.contains(other) by {
            assert(args_mention(patterns, other));
        }
        lemma_expand_args_within(shorter, bindings, seed, bases, floor, names);
        let front = expanded_args(shorter, bindings, seed);
        lemma_expand_arg_within(patterns.last(), front.1, seed, bases, floor, names);
        let last = expanded_arg(patterns.last(), front.1, seed);
        if front.0 is Ok && last.0 is Ok {
            let before = front.0->Ok_0;
            let done = before.push(last.0->Ok_0);
            assert(done.drop_last() =~= before);
            assert forall|other: Seq<char>| #[trigger]
                args_mention(done, other) implies names.contains(other) by {
                if args_mention(before, other) {
                } else {
                    assert(arg_mentions(last.0->Ok_0.item, other));
                }
            }
        }
    } else {
        assert forall|other: Seq<char>| #[trigger]
            args_mention(Seq::<SpannedModel<ArgModel>>::empty(), other) implies names.contains(
            other,
        ) by {}
    }
}

/// Expanding a pattern brings in no name but those of the bound trees
/// and those that its symbols can be made into.
pub proof fn lemma_expand_pattern_within(
    pattern: SpannedModel<PatternModel>,
    bindings: BindingsModel,
    seed: u64,
    bases: Set<Seq<char>>,
    floor: Set<Seq<char>>,
    names: Set<Seq<char>>,
)
    requires
        pattern_within(pattern.item, bases),
        values_within(bindings, names),
        floor.subset_of(bindings.dom()),
        fresh_within(bases, floor, seed, names),
    ensures
        bindings.dom().subset_of(expanded_pattern(pattern, bindings, seed).1.dom()),
        values_within(expanded_pattern(pattern, bindings, seed).1, names),
        expanded_pattern(pattern, bindings, seed).0 is Ok ==> pattern_within(
            expanded_pattern(pattern, bindings, seed).0->Ok_0.item,
            names,
        ),
    decreases pattern,
{
    reveal(pattern_of);
    reveal(rebuilt);
    match pattern.item {
        PatternModel::Symbol(name) => {
            assert(pattern_mentions(pattern.item, name));
            lemma_resolve_within(name, pattern.span, bindings, seed, bases, floor, names);
            let found = resolved(name, pattern.span, bindings, seed);
            if found.0 is Ok && found.0->Ok_0.item.as_pattern() is Ok {
                let tree = found.0->Ok_0;
                let item = tree.item.as_pattern()->Ok_0;
                assert forall|other: Seq<char>| #[trigger]
                    pattern_mentions(item, other) implies names.contains(other) by {
                    lemma_as_pattern_mentions(tree.item, other);
                }
            }
        },
        PatternModel::Data(_) => {},
        PatternModel::Label(name, inner) => {
            assert forall|other: Seq<char>| #[trigger]
                pattern_mentions(inner.item, other) implies bases.contains(other) by {
                assert(pattern_mentions(pattern.item, other));
            }
            lemma_expand_pattern_within(*inner, bindings, seed, bases, floor, names);
            let found = expanded_pattern(*inner, bindings, seed);
            if found.0 is Ok {
                let done = found.0->Ok_0;
                assert forall|other: Seq<char>| #[trigger]
                    pattern_mentions(PatternModel::Label(name, Box::new(done)), other)
                    implies names.contains(other) by {
                    assert(pattern_mentions(done.item, other));
                }
            }
        },
        PatternModel::Chain(patterns) => {
            assert forall|other: Seq<char>| #[trigger]
                patterns_mention(patterns, other) implies bases.contains(other) by {
                assert(pattern_mentions(pattern.item, other));
            }
            lemma_expand_patterns_within(patterns, bindings, seed, bases, floor, names);
            let found = expanded_patterns(patterns, bindings, seed);
            if found.0 is Ok {
                let done = found.0->Ok_0;
                assert forall|other: Seq<char>| #[trigger]
                    pattern_mentions(PatternModel::Chain(done), other) implies names.contains(
                    other,
                ) by {
                    assert(patterns_mention(done, other));
                }
            }
        },
        PatternModel::Tuple(patterns) => {
            assert forall|other: Seq<char>| #[trigger]
                patterns_mention(patterns, other) implies bases.contains(other) by {
                assert(pattern_mentions(pattern.item, other));
            }
            lemma_expand_patterns_within(patterns, bindings, seed, bases, floor, names);
            let found = expanded_patterns(patterns, bindings, seed);
            if found.0 is Ok {
                let done = found.0->Ok_0;
                assert forall|other: Seq<char>| #[trigger]
                    pattern_mentions(PatternModel::Tuple(done), other) implies names.contains(
                    other,
                ) by {
                    assert(patterns_mention(done, other));
                }
            }
        },
    }
}

/// Expanding a row of patterns brings in no name but those of the bound trees
/// and those that their symbols can be made into.
pub proof fn lemma_expand_patterns_within(
    patterns: Seq<SpannedModel<PatternModel>>,
    bindings: BindingsModel,
    seed: u64,
    bases: Set<Seq<char>>,
    floor: Set<Seq<char>>,
    names: Set<Seq<char>>,
)
    requires
        patterns_within(patterns, bases),
        values_within(bindings, names),
        floor.subset_of(bindings.dom()),
        fresh_within(bases, floor, seed, names),
    ensures
        bindings.dom().subset_of(expanded_patterns(patterns, bindings, seed).1.dom()),
        values_within(expanded_patterns(patterns, bindings, seed).1, names),
        expanded_patterns(patterns, bindings, seed).0 is Ok ==> patterns_within(
            expanded_patterns(patterns, bindings, seed).0->Ok_0,
            names,
        ),
    decreases patterns,
{
    reveal(extended);
    if patterns.len() > 0 {
        let shorter = patterns.drop_last();
        assert forall|other: Seq<char>| #[trigger]
            patterns_mention(shorter, other) implies bases.contains(other) by {
            assert(patterns_mention(patterns, other));
        }
        assert forall|other: Seq<char>| #[trigger]
            pattern_mentions(patterns.last().item, other) implies bases.contains(other) by {
            assert(patterns_mention(patterns, other));
        }
        lemma_expand_patterns_within(shorter, bindings, seed, bases, floor, names);
        let front = expanded_patterns(shorter, bindings, seed);
        lemma_expand_pattern_within(patterns.last(), front.1, seed, bases, floor, names);
        let last = expanded_pattern(patterns.last(), front.1, seed);
        if front.0 is Ok && last.0 is Ok {
            let before = front.0->Ok_0;
            let done = before.push(last.0->Ok_0);
            assert(done.drop_last() =~= before);
            assert forall|other: Seq<char>| #[trigger]
                patterns_mention(done, other) implies names.contains(other) by {
                if patterns_mention(before, other) {
                } else {
                    assert(pattern_mentions(last.0->Ok_0.item, other));
                }
            }
        }
    } else {
        assert forall|other: Seq<char>| #[trigger]
            patterns_mention(Seq::<SpannedModel<PatternModel>>::empty(), other)
            implies names.contains(other) by {}
    }
}

/// Expanding a tree brings in no name but those of the bound trees
/// and those that its symbols can be made into.
pub proof fn lemma_expand_within(
    tree: SpannedModel<AstModel>,
    bindings: BindingsModel,
    seed: u64,
    bases: Set<Seq<char>>,
    floor: Set<Seq<char>>,
    names: Set<Seq<char>>,
)
    requires
        tree_within(tree.item, bases),
        values_within(bindings, names),
        floor.subset_of(bindings.dom()),
        fresh_within(bases, floor, seed, names),
    ensures
        bindings.dom().subset_of(expanded(tree, bindings, seed).1.dom()),
        values_within(expanded(tree, bindings, seed).1, names),
        expanded(tree, bindings, seed).0 is Ok ==> tree_within(
            expanded(tree, bindings, seed).0->Ok_0.item,
            names,
        ),
    decreases tree,
{
    reveal(rebuilt);
    reveal(rebuilt_pair);
    match tree.item {
        AstModel::Symbol(name) => {
            assert(mentions(tree.item, name));
            lemma_resolve_within(name, tree.span, bindings, seed, bases, floor, names);
        },
        AstModel::Data(_) => {},
        AstModel::Block(trees) => {
            assert forall|other: Seq<char>| #[trigger]
                all_mention(trees, other) implies bases.contains(other) by {
                assert(mentions(tree.item, other));
            }
            lemma_expand_all_within(trees, bindings, seed, bases, floor, names);
            let found = expanded_all(trees, bindings, seed);
            if found.0 is Ok {
                let done = found.0->Ok_0;
                assert forall|other: Seq<char>| #[trigger]
                    mentions(AstModel::Block(done), other) implies names.contains(other) by {
                    assert(all_mention(done, other));
                }
            }
        },
        AstModel::Form(trees) => {
            assert forall|other: Seq<char>| #[trigger]
                all_mention(trees, other) implies bases.contains(other) by {
                assert(mentions(tree.item, other));
            }
            lemma_expand_all_within(trees, bindings, seed, bases, floor, names);
            let found = expanded_all(trees, bindings, seed);
            if found.0 is Ok {
                let done = found.0->Ok_0;
                assert forall|other: Seq<char>| #[trigger]
                    mentions(AstModel::Form(done), other) implies names.contains(other) by {
                    assert(all_mention(done, other));
                }
            }
        },
        AstModel::Group(inner) => {
            assert forall|other: Seq<char>| #[trigger]
                mentions(inner.item, other) implies bases.contains(other) by {
                assert(mentions(tree.item, other));
            }
            lemma_expand_within(*inner, bindings, seed, bases, floor, names);
            let found = expanded(*inner, bindings, seed);
            if found.0 is Ok {
                let done = found.0->Ok_0;
                assert forall|other: Seq<char>| #[trigger]
                    mentions(AstModel::Group(Box::new(done)), other) implies names.contains(other) by {
                    assert(mentions(done.item, other));
                }
            }
        },
        AstModel::Composition { argument, function } => {
            assert forall|other: Seq<char>| #[trigger]
                mentions(argument.item, other) implies bases.contains(other) by {
                assert(mentions(tree.item, other));
            }
            assert forall|other: Seq<char>| #[trigger]
                mentions(function.item, other) implies bases.contains(other) by {
                assert(mentions(tree.item, other));
            }
            lemma_expand_within(*argument, bindings, seed, bases, floor, names);
            let first = expanded(*argument, bindings, seed);
            lemma_expand_within(*function, first.1, seed, bases, floor, names);
            let second = expanded(*function, first.1, seed);
            if first.0 is Ok && second.0 is Ok {
                let left = first.0->Ok_0;
                let right = second.0->Ok_0;
                assert forall|other: Seq<char>| #[trigger]
                    mentions(
                        AstModel::Composition { argument: Box::new(left), function: Box::new(right) },
                        other,
                    ) implies names.contains(other) by {
                    if mentions(left.item, other) {
                    } else {
                        assert(mentions(right.item, other));
                    }
                }
            }
        },
        AstModel::CSTPattern(pattern) => {
            assert forall|other: Seq<char>| #[trigger]
                pattern_mentions(pattern, other) implies bases.contains(other) by {
                assert(mentions(tree.item, other));
            }
            let spanned = SpannedModel { item: pattern, span: tree.span };
            lemma_expand_pattern_within(spanned, bindings, seed, bases, floor, names);
            let found = expanded_pattern(spanned, bindings, seed);
            if found.0 is Ok {
                let done = found.0->Ok_0;
                assert forall|other: Seq<char>| #[trigger]
                    mentions(AstModel::CSTPattern(done.item), other) implies names.contains(
                    other,
                ) by {
                    assert(pattern_mentions(done.item, other));
                }
            }
        },
        AstModel::ArgPattern(pattern) => {
            assert forall|other: Seq<char>| #[trigger]
                arg_mentions(pattern, other) implies bases.contains(other) by {
                assert(mentions(tree.item, other));
            }
            let spanned = SpannedModel { item: pattern, span: tree.span };
            lemma_expand_arg_within(spanned, bindings, seed, bases, floor, names);
            let found = expanded_arg(spanned, bindings, seed);
            if found.0 is Ok {
                let done = found.0->Ok_0;
                assert forall|other: Seq<char>| #[trigger]
                    mentions(AstModel::ArgPattern(done.item), other) implies names.contains(
                    other,
                ) by {
                    assert(arg_mentions(done.item, other));
                }
            }
        },
        AstModel::Assign { pattern, expression } => {
            assert forall|other: Seq<char>| #[trigger]
                pattern_mentions(pattern.item, other) implies bases.contains(other) by {
                assert(mentions(tree.item, other));
            }
            assert forall|other: Seq<char>| #[trigger]
                mentions(expression.item, other) implies bases.contains(other) by {
                assert(mentions(tree.item, other));
            }
            lemma_expand_pattern_within(*pattern, bindings, seed, bases, floor, names);
            let first = expanded_pattern(*pattern, bindings, seed);
            lemma_expand_within(*expression, first.1, seed, bases, floor, names);
            let second = expanded(*expression, first.1, seed);
            if first.0 is Ok && second.0 is Ok {
                let left = first.0->Ok_0;
                let right = second.0->Ok_0;
                assert forall|other: Seq<char>| #[trigger]
                    mentions(
                        AstModel::Assign { pattern: Box::new(left), expression: Box::new(right) },
                        other,
                    ) implies names.contains(other) by {
                    if pattern_mentions(left.item, other) {
                    } else {
                        assert(mentions(right.item, other));
                    }
                }
            }
        },
        AstModel::Lambda { pattern, expression } => {
            assert forall|other: Seq<char>| #[trigger]
                pattern_mentions(pattern.item, other) implies bases.contains(other) by {
                assert(mentions(tree.item, other));
            }
            assert forall|other: Seq<char>| #[trigger]
                mentions(expression.item, other) implies bases.contains(other) by {
                assert(mentions(tree.item, other));
            }
            lemma_expand_pattern_within(*pattern, bindings, seed, bases, floor, names);
            let first = expanded_pattern(*pattern, bindings, seed);
            lemma_expand_within(*expression, first.1, seed, bases, floor, names);
            let second = expanded(*expression, first.1, seed);
            if first.0 is Ok && second.0 is Ok {
                let left = first.0->Ok_0;
                let right = second.0->Ok_0;
                assert forall|other: Seq<char>| #[trigger]
                    mentions(
                        AstModel::Lambda { pattern: Box::new(left), expression: Box::new(right) },
                        other,
                    ) implies names.contains(other) by {
                    if pattern_mentions(left.item, other) {
                    } else {
                        assert(mentions(right.item, other));
                    }
                }
            }
        },
        AstModel::Label(kind, inner) => {
            assert forall|other: Seq<char>| #[trigger]
                mentions(inner.item, other) implies bases.contains(other) by {
                assert(mentions(tree.item, other));
            }
            lemma_expand_within(*inner, bindings, seed, bases, floor, names);
            let found = expanded(*inner, bindings, seed);
            if found.0 is Ok {
                let done = found.0->Ok_0;
                assert forall|other: Seq<char>| #[trigger]
                    mentions(AstModel::Label(kind, Box::new(done)), other) implies names.contains(other) by {
                    assert(mentions(done.item, other));
                }
            }
        },
        AstModel::Tuple(trees) => {
            assert forall|other: Seq<char>| #[trigger]
                all_mention(trees, other) implies bases.contains(other) by {
                assert(mentions(tree.item, other));
            }
            lemma_expand_all_within(trees, bindings, seed, bases, floor, names);
            let found = expanded_all(trees, bindings, seed);
            if found.0 is Ok {
                let done = found.0->Ok_0;
                assert forall|other: Seq<char>| #[trigger]
                    mentions(AstModel::Tuple(done), other) implies names.contains(other) by {
                    assert(all_mention(done, other));
                }
            }
        },
        AstModel::Syntax { arg_pat, expression } => {},
        AstModel::FFI { name, expression } => {
            assert forall|other: Seq<char>| #[trigger]
                mentions(expression.item, other) implies bases.contains(other) by {
                assert(mentions(tree.item, other));
            }
            lemma_expand_within(*expression, bindings, seed, bases, floor, names);
            let found = expanded(*expression, bindings, seed);
            if found.0 is Ok {
                let done = found.0->Ok_0;
                assert forall|other: Seq<char>| #[trigger]
                    mentions(AstModel::FFI { name, expression: Box::new(done) }, other) implies names.contains(other) by {
                    assert(mentions(done.item, other));
                }
            }
        },
    }
}

/// Expanding a row of trees brings in no name but those of the bound trees
/// and those that their symbols can be made into.
pub proof fn lemma_expand_all_within(
    trees: Seq<SpannedModel<AstModel>>,
    bindings: BindingsModel,
    seed: u64,
    bases: Set<Seq<char>>,
    floor: Set<Seq<char>>,
    names: Set<Seq<char>>,
)
    requires
        trees_within(trees, bases),
        values_within(bindings, names),
        floor.subset_of(bindings.dom()),
        fresh_within(bases, floor, seed, names),
    ensures
        bindings.dom().subset_of(expanded_all(trees, bindings, seed).1.dom()),
        values_within(expanded_all(trees, bindings, seed).1, names),
        expanded_all(trees, bindings, seed).0 is Ok ==> trees_within(
            expanded_all(trees, bindings, seed).0->Ok_0,
            names,
        ),
    decreases trees,
{
    reveal(extended);
    if trees.len() > 0 {
        let shorter = trees.drop_last();
        assert forall|other: Seq<char>| #[trigger]
            all_mention(shorter, other) implies bases.contains(other) by {
            assert(all_mention(trees, other));
        }
        assert forall|other: Seq<char>| #[trigger]
            mentions(trees.last().item, other) implies bases.contains(other) by {
            assert(all_mention(trees, other));
        }
        lemma_expand_all_within(shorter, bindings, seed, bases, floor, names);
        let front = expanded_all(shorter, bindings, seed);
        lemma_expand_within(trees.last(), front.1, seed, bases, floor, names);
        let last = expanded(trees.last(), front.1, seed);
        if front.0 is Ok && last.0 is Ok {
            let before = front.0->Ok_0;
            let done = before.push(last.0->Ok_0);
            assert(done.drop_last() =~= before);
            assert forall|other: Seq<char>| #[trigger]
                all_mention(done, other) implies names.contains(other) by {
                if all_mention(before, other) {
                } else {
                    assert(mentions(last.0->Ok_0.item, other));
                }
            }
        }
    } else {
        assert forall|other: Seq<char>| #[trigger]
            all_mention(Seq::<SpannedModel<AstModel>>::empty(), other) implies names.contains(
            other,
        ) by {}
    }
}

/// Whether a name stands as a symbol in one of the trees that are bound.
pub open spec fn bound_mentions(bindings: BindingsModel, name: Seq<char>) -> bool {
    exists|key: Seq<char>| #[trigger]
        bindings.contains_key(key) && mentions(bindings[key].item, name)
}

/// Whether a name is one that a symbol of the tree can be made into,
/// and that no tree is bound to.
pub open spec fn made_unique(
    item: AstModel,
    bindings: BindingsModel,
    seed: u64,
    name: Seq<char>,
) -> bool {
    exists|base: Seq<char>, tries: nat|
        mentions(item, base) && tries < TRIES && name == #[trigger] tagged(base, seed, tries)
            && !bindings.contains_key(name)
}

/// Expansion is hygienic. Every symbol of an expanded tree either stands in a tree
/// that was bound when the expansion began, or is a symbol of the tree that went in
/// with a tag at its end, and is a name that nothing was bound to.
pub proof fn lemma_expand_is_hygienic(
    tree: SpannedModel<AstModel>,
    bindings: BindingsModel,
    seed: u64,
    name: Seq<char>,
)
    requires
        expanded(tree, bindings, seed).0 is Ok,
        mentions(expanded(tree, bindings, seed).0->Ok_0.item, name),
    ensures
        bound_mentions(bindings, name) || made_unique(tree.item, bindings, seed, name),
{
    let bases = Set::new(|base: Seq<char>| mentions(tree.item, base));
    let floor = bindings.dom();
    let names = Set::new(
        |other: Seq<char>|
            bound_mentions(bindings, other) || made_unique(tree.item, bindings, seed, other),
    );
    assert forall|key: Seq<char>| #[trigger] bindings.contains_key(key) implies tree_within(
        bindings[key].item,
        names,
    ) by {
        assert forall|other: Seq<char>| #[trigger]
            mentions(bindings[key].item, other) implies names.contains(other) by {
            assert(bindings.contains_key(key) && mentions(bindings[key].item, other));
        }
    }
    assert forall|base: Seq<char>, tries: nat|
        bases.contains(base) && tries < TRIES && !floor.contains(
            #[trigger] tagged(base, seed, tries),
        ) implies names.contains(tagged(base, seed, tries)) by {
        let unique = tagged(base, seed, tries);
        assert(mentions(tree.item, base) && tries < TRIES && unique == tagged(base, seed, tries)
            && !bindings.contains_key(unique));
    }
    lemma_expand_within(tree, bindings, seed, bases, floor, names);
    assert(names.contains(name));
}

/// A name that expansion has made unique holds a hash sign, and goes back to what
/// the symbol that it was made from goes back to when its tag is taken off.
/// So it is no name that a program can be written with.
pub proof fn lemma_made_unique_is_tagged(
    item: AstModel,
    bindings: BindingsModel,
    seed: u64,
    name: Seq<char>,
)
    requires
        made_unique(item, bindings, seed, name),
    ensures
        name.contains('#'),
        exists|base: Seq<char>| #[trigger] mentions(item, base) && untagged(name) == untagged(base),
{
    let (base, tries) = choose|base: Seq<char>, tries: nat|
        mentions(item, base) && tries < TRIES && name == #[trigger] tagged(base, seed, tries)
            && !bindings.contains_key(name);
    lemma_untagged_of_tagged(base, seed, tries);
    assert(mentions(item, base) && untagged(name) == untagged(base));
}

/// Whether a piece of text stands somewhere in a name.
pub open spec fn occurs_in(piece: Seq<char>, name: Seq<char>) -> bool {
    exists|at: int|
        0 <= at && at + piece.len() <= name.len() && #[trigger] name.subrange(
            at,
            at + piece.len(),
        ) == piece
}

/// Whether a name is one that the tree or the bindings hold:
/// a symbol of the tree, a name that is bound, or a symbol of a bound tree.
pub open spec fn known(item: AstModel, bindings: BindingsModel, name: Seq<char>) -> bool {
    mentions(item, name) || bindings.contains_key(name) || bound_mentions(bindings, name)
}

/// None of the stamps that an expansion can use stands in a name
/// that the tree or the bindings hold.
pub open spec fn stamps_unused(item: AstModel, bindings: BindingsModel, seed: u64) -> bool {
    forall|tries: nat, name: Seq<char>|
        tries < TRIES && known(item, bindings, name) ==> !#[trigger] occurs_in(
            stamp_text(seed, tries),
            name,
        )
}

/// Where none of the stamps that the expansion can use stands in a name that the tree
/// or the bindings hold, every symbol of the expanded tree either stands in a tree
/// that was bound when the expansion began, or is a symbol of the tree that went in
/// with a tag at its end that stands in no name of the tree or the bindings.
pub proof fn lemma_expand_tags_are_new(
    tree: SpannedModel<AstModel>,
    bindings: BindingsModel,
    seed: u64,
    name: Seq<char>,
)
    requires
        expanded(tree, bindings, seed).0 is Ok,
        mentions(expanded(tree, bindings, seed).0->Ok_0.item, name),
        stamps_unused(tree.item, bindings, seed),
    ensures
        bound_mentions(bindings, name) || exists|base: Seq<char>, tries: nat|
            mentions(tree.item, base) && tries < TRIES && name == #[trigger] tagged(
                base,
                seed,
                tries,
            ) && forall|other: Seq<char>|
                known(tree.item, bindings, other) ==> !#[trigger] occurs_in(
                    stamp_text(seed, tries),
                    other,
                ),
{
    lemma_expand_is_hygienic(tree, bindings, seed, name);
    if !bound_mentions(bindings, name) {
        let (base, tries) = choose|base: Seq<char>, tries: nat|
            mentions(tree.item, base) && tries < TRIES && name == #[trigger] tagged(
                base,
                seed,
                tries,
            ) && !bindings.contains_key(name);
        assert(mentions(tree.item, base) && tries < TRIES && name == tagged(base, seed, tries)
            && forall|other: Seq<char>|
            known(tree.item, bindings, other) ==> !#[trigger] occurs_in(
                stamp_text(seed, tries),
                other,
            ));
    }
}

} // verus!
