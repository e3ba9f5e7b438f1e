//! Macro rules: matching a form against a rule's pattern,
//! and expanding the rule's body hygienically.

use vstd::prelude::*;
use vstd::std_specs::vec::axiom_vec_index_decreases;
use crate::ast::{ArgModel, ArgPattern, AST, ASTPattern, AstModel, PatternModel, arg_models,
    ast_models, pattern_models};
use crate::bindings::{Bindings, BindingsModel};
use crate::expansion::{TRIES, arg_of, bound, bound_all, bound_keyword, bound_symbol, collision,
    expanded, expanded_all, expanded_arg, expanded_args, expanded_pattern, expanded_patterns,
    extended, first_free, keywordless, keywords_of, keywords_of_all, merged, pattern_of, rebuilt,
    rebuilt_pair, resolved, spans_of, unique_name};
use crate::span::{Span, Spanned, SpannedModel};
use crate::stamp::{clock_seed, tag, tagged, untag, untagged};
use crate::syntax::{Syntax, SyntaxModel};

verus! {

/// A rule has an argument pattern and a tree.
/// When a form matches the pattern, a set of bindings is produced,
/// which are then spliced into the rule's tree to make a new tree, in a hygienic manner.
#[derive(Debug)]
pub struct Rule {
    pub arg_pat: Spanned<ArgPattern>,
    pub tree: Spanned<AST>,
}

/// What a `Rule` holds.
pub ghost struct RuleModel {
    pub arg_pat: SpannedModel<ArgModel>,
    pub tree: SpannedModel<AstModel>,
}

impl Clone for Rule {
    fn clone(&self) -> (copy: Rule)
        ensures
            copy@ == self@,
    {
        Rule {
            arg_pat: ArgPattern::duplicate_spanned(&self.arg_pat),
            tree: AST::duplicate_spanned(&self.tree),
        }
    }
}

impl View for Rule {
    type V = RuleModel;

    open spec fn view(&self) -> RuleModel {
        RuleModel { arg_pat: self.arg_pat@, tree: self.tree@ }
    }
}

/// What each of a row of texts holds.
pub open spec fn texts(names: Seq<String>) -> Seq<Seq<char>> {
    names.map_values(|name: String| name@)
}

/// What a result holds that is a rule or an error.
pub open spec fn rule_result(result: Result<Rule, Syntax>) -> Result<RuleModel, SyntaxModel> {
    match result {
        Ok(rule) => Ok(rule@),
        Err(error) => Err(error@),
    }
}

/// What a result holds that is a tree or an error.
pub open spec fn tree_result(result: Result<Spanned<AST>, Syntax>) -> Result<
    SpannedModel<AstModel>,
    SyntaxModel,
> {
    match result {
        Ok(tree) => Ok(tree@),
        Err(error) => Err(error@),
    }
}

/// What a name holds, if there is one.
pub open spec fn name_option(name: Option<String>) -> Option<Seq<char>> {
    match name {
        Some(name) => Some(name@),
        None => None,
    }
}

/// What the outcome of matching a form holds.
pub open spec fn bind_result(result: Option<Result<Bindings, Syntax>>) -> Option<
    Result<BindingsModel, SyntaxModel>,
> {
    match result {
        None => None,
        Some(Ok(bindings)) => Some(Ok(bindings@)),
        Some(Err(error)) => Some(Err(error@)),
    }
}

/// What a result holds that is an argument pattern or an error.
pub open spec fn arg_result(result: Result<Spanned<ArgPattern>, Syntax>) -> Result<
    SpannedModel<ArgModel>,
    SyntaxModel,
> {
    match result {
        Ok(pattern) => Ok(pattern@),
        Err(error) => Err(error@),
    }
}

/// What a result holds that is a row of argument patterns or an error.
pub open spec fn args_result(result: Result<Vec<Spanned<ArgPattern>>, Syntax>) -> Result<
    Seq<SpannedModel<ArgModel>>,
    SyntaxModel,
> {
    match result {
        Ok(patterns) => Ok(arg_models(patterns@)),
        Err(error) => Err(error@),
    }
}

/// What a result holds that is a pattern or an error.
pub open spec fn pattern_result(result: Result<Spanned<ASTPattern>, Syntax>) -> Result<
    SpannedModel<PatternModel>,
    SyntaxModel,
> {
    match result {
        Ok(pattern) => Ok(pattern@),
        Err(error) => Err(error@),
    }
}

/// What a result holds that is a row of patterns or an error.
pub open spec fn patterns_result(result: Result<Vec<Spanned<ASTPattern>>, Syntax>) -> Result<
    Seq<SpannedModel<PatternModel>>,
    SyntaxModel,
> {
    match result {
        Ok(patterns) => Ok(pattern_models(patterns@)),
        Err(error) => Err(error@),
    }
}

/// What a result holds that is a row of trees or an error.
pub open spec fn trees_result(result: Result<Vec<Spanned<AST>>, Syntax>) -> Result<
    Seq<SpannedModel<AstModel>>,
    SyntaxModel,
> {
    match result {
        Ok(trees) => Ok(ast_models(trees@)),
        Err(error) => Err(error@),
    }
}

/// Once a front part of a row of patterns does not match, or binds a name twice,
/// the whole row gives what that front part gives.
pub proof fn lemma_bound_all_stops(
    patterns: Seq<SpannedModel<ArgModel>>,
    front: int,
    form: Seq<SpannedModel<AstModel>>,
)
    requires
        0 <= front <= patterns.len(),
        !(bound_all(patterns.take(front), form).0 matches Some(Ok(_))),
    ensures
        bound_all(patterns, form) == bound_all(patterns.take(front), form),
    decreases patterns.len() - front,
{
    reveal(merged);
    if front < patterns.len() {
        assert(patterns.take(front + 1).drop_last() =~= patterns.take(front));
        lemma_bound_all_stops(patterns, front + 1, form);
    } else {
        assert(patterns.take(front) =~= patterns);
    }
}

/// Once a front part of a row of argument patterns fails to expand,
/// the whole row fails in the same way.
pub proof fn lemma_expanded_args_stops(
    patterns: Seq<SpannedModel<ArgModel>>,
    front: int,
    bindings: BindingsModel,
    seed: u64,
)
    requires
        0 <= front <= patterns.len(),
        expanded_args(patterns.take(front), bindings, seed).0 is Err,
    ensures
        expanded_args(patterns, bindings, seed) == expanded_args(
            patterns.take(front),
            bindings,
            seed,
        ),
    decreases patterns.len() - front,
{
    reveal(extended);
    if front < patterns.len() {
        assert(patterns.take(front + 1).drop_last() =~= patterns.take(front));
        lemma_expanded_args_stops(patterns, front + 1, bindings, seed);
    } else {
        assert(patterns.take(front) =~= patterns);
    }
}

/// Once a front part of a row of patterns fails to expand,
/// the whole row fails in the same way.
pub proof fn lemma_expanded_patterns_stops(
    patterns: Seq<SpannedModel<PatternModel>>,
    front: int,
    bindings: BindingsModel,
    seed: u64,
)
    requires
        0 <= front <= patterns.len(),
        expanded_patterns(patterns.take(front), bindings, seed).0 is Err,
    ensures
        expanded_patterns(patterns, bindings, seed) == expanded_patterns(
            patterns.take(front),
            bindings,
            seed,
        ),
    decreases patterns.len() - front,
{
    reveal(extended);
    if front < patterns.len() {
        assert(patterns.take(front + 1).drop_last() =~= patterns.take(front));
        lemma_expanded_patterns_stops(patterns, front + 1, bindings, seed);
    } else {
        assert(patterns.take(front) =~= patterns);
    }
}

/// Once a front part of a row of trees fails to expand,
/// the whole row fails in the same way.
pub proof fn lemma_expanded_all_stops(
    trees: Seq<SpannedModel<AstModel>>,
    front: int,
    bindings: BindingsModel,
    seed: u64,
)
    requires
        0 <= front <= trees.len(),
        expanded_all(trees.take(front), bindings, seed).0 is Err,
    ensures
        expanded_all(trees, bindings, seed) == expanded_all(trees.take(front), bindings, seed),
    decreases trees.len() - front,
{
    reveal(extended);
    if front < trees.len() {
        assert(trees.take(front + 1).drop_last() =~= trees.take(front));
        lemma_expanded_all_stops(trees, front + 1, bindings, seed);
    } else {
        assert(trees.take(front) =~= trees);
    }
}

impl Rule {
    /// Builds a new rule, making sure that the rule's pattern holds a keyword.
    pub fn new(arg_pat: Spanned<ArgPattern>, tree: Spanned<AST>) -> (result: Result<Rule, Syntax>)
        ensures
            rule_result(result) == if keywords_of(arg_pat@).len() == 0 {
                Err::<RuleModel, SyntaxModel>(keywordless(arg_pat@.span))
            } else {
                Ok(RuleModel { arg_pat: arg_pat@, tree: tree@ })
            },
    {
        let keywords = Rule::keywords(&arg_pat);
        if keywords.len() == 0 {
            return Err(
                Syntax::error("Syntactic macro must have at least one pseudokeyword", &arg_pat.span),
            );
        }
        Ok(Rule { arg_pat, tree })
    }

    /// Returns all keywords used by the macro, in order of usage.
    /// Does not filter for duplicates.
    pub fn keywords(arg_pat: &Spanned<ArgPattern>) -> (keywords: Vec<String>)
        ensures
            texts(keywords@) == keywords_of(arg_pat@),
        decreases arg_pat,
    {
        match &arg_pat.item {
            ArgPattern::Group(patterns) => Rule::keywords_all(patterns),
            ArgPattern::Keyword(name) => {
                let mut keywords: Vec<String> = Vec::new();
                keywords.push(name.clone());
                assert(texts(keywords@) =~= seq![name@]);
                keywords
            },
            ArgPattern::Symbol(_) => {
                let keywords: Vec<String> = Vec::new();
                assert(texts(keywords@) =~= Seq::empty());
                keywords
            },
        }
    }

    /// Returns all keywords used by a row of patterns, in order of usage.
    pub fn keywords_all(patterns: &Vec<Spanned<ArgPattern>>) -> (keywords: Vec<String>)
        ensures
            texts(keywords@) == keywords_of_all(arg_models(patterns@)),
        decreases patterns,
    {
        let ghost all = arg_models(patterns@);
        let mut keywords: Vec<String> = Vec::new();
        let mut i: usize = 0;
        assert(all.take(0) =~= Seq::empty());
        assert(texts(keywords@) =~= Seq::empty());
        while i < patterns.len()
            invariant
                i <= patterns.len(),
                all == arg_models(patterns@),
                texts(keywords@) == keywords_of_all(all.take(i as int)),
            decreases patterns.len() - i,
        {
            proof {
                axiom_vec_index_decreases(*patterns, i as int);
                assert(all.take(i + 1).drop_last() =~= all.take(i as int));
                assert(all.take(i + 1).last() == patterns@[i as int]@);
            }
            let ghost before = keywords@;
            let mut more = Rule::keywords(&patterns[i]);
            let ghost added = more@;
            keywords.append(&mut more);
            assert(texts(keywords@) =~= texts(before) + texts(added));
            i = i + 1;
        }
        assert(all.take(i as int) =~= all);
        keywords
    }

    /// Merges two maps of bindings.
    /// If there is a collision, i.e. a name bound in both bindings,
    /// an error at `def` is returned, and `base` stays as it is.
    pub fn merge_safe(base: &mut Bindings, new: Bindings, def: Span) -> (result: Result<(), Syntax>)
        ensures
            result is Ok <==> old(base)@.dom().disjoint(new@.dom()),
            result is Ok ==> final(base)@ == old(base)@.union_prefer_right(new@),
            result is Err ==> final(base)@ == old(base)@ && result->Err_0@ == collision(def@),
    {
        if base.merge(new) {
            Ok(())
        } else {
            Err(
                Syntax::error(
                    "Variable has already been declared in syntactic macro argument pattern",
                    &def,
                ),
            )
        }
    }

    /// Traverses a form, creating bindings for subsequent transformation.
    /// Returns `None` if the form does not match the argument pattern,
    /// `Some(Ok(_))` if it matches successfully,
    /// and `Some(Err(_))` if it matches but binds a name twice.
    /// The form is taken back to front, and the nodes that were matched are taken off its end:
    /// the match covers the whole form only where the form is empty afterwards.
    pub fn bind(arg_pat: &Spanned<ArgPattern>, reversed_form: &mut Vec<Spanned<AST>>) -> (result:
        Option<Result<Bindings, Syntax>>)
        ensures
            (bind_result(result), ast_models(final(reversed_form)@)) == bound(
                arg_pat@,
                ast_models(old(reversed_form)@),
            ),
        decreases arg_pat,
    {
        let ghost before = reversed_form@;
        reveal(bound_keyword);
        reveal(bound_symbol);
        match &arg_pat.item {
            ArgPattern::Keyword(expected) => match reversed_form.pop() {
                None => None,
                Some(node) => {
                    assert(ast_models(reversed_form@) =~= ast_models(before).drop_last());
                    assert(ast_models(before).last() == node@);
                    match node.item {
                        AST::Symbol(name) => {
                            if Rule::remove_tag(name.as_str()) == *expected {
                                Some(Ok(Bindings::new()))
                            } else {
                                None
                            }
                        },
                        _ => None,
                    }
                },
            },
            ArgPattern::Symbol(symbol) => match reversed_form.pop() {
                None => None,
                Some(node) => {
                    assert(ast_models(reversed_form@) =~= ast_models(before).drop_last());
                    assert(ast_models(before).last() == node@);
                    let mut bindings = Bindings::new();
                    bindings.insert(symbol.clone(), node);
                    Some(Ok(bindings))
                },
            },
            ArgPattern::Group(patterns) => Rule::bind_all(patterns, reversed_form),
        }
    }

    /// Matches a row of patterns against the end of a form, one after the other.
    pub fn bind_all(patterns: &Vec<Spanned<ArgPattern>>, reversed_form: &mut Vec<Spanned<AST>>) -> (result:
        Option<Result<Bindings, Syntax>>)
        ensures
            (bind_result(result), ast_models(final(reversed_form)@)) == bound_all(
                arg_models(patterns@),
                ast_models(old(reversed_form)@),
            ),
        decreases patterns,
    {
        let ghost all = arg_models(patterns@);
        let ghost form = ast_models(reversed_form@);
        let mut bindings = Bindings::new();
        let mut i: usize = 0;
        assert(all.take(0) =~= Seq::empty());
        while i < patterns.len()
            invariant
                i <= patterns.len(),
                all == arg_models(patterns@),
                form == ast_models(old(reversed_form)@),
                bound_all(all.take(i as int), form) == (
                    Some(Ok::<BindingsModel, SyntaxModel>(bindings@)),
                    ast_models(reversed_form@),
                ),
            decreases patterns.len() - i,
        {
            proof {
                reveal(merged);
                axiom_vec_index_decreases(*patterns, i as int);
                assert(all.take(i + 1).drop_last() =~= all.take(i as int));
                assert(all.take(i + 1).last() == patterns@[i as int]@);
            }
            let span = patterns[i].span.clone();
            let new = match Rule::bind(&patterns[i], reversed_form) {
                None => {
                    proof {
                        lemma_bound_all_stops(all, i + 1, form);
                    }
                    return None;
                },
                Some(Err(mismatch)) => {
                    proof {
                        lemma_bound_all_stops(all, i + 1, form);
                    }
                    return Some(Err(mismatch));
                },
                Some(Ok(matched)) => matched,
            };
            match Rule::merge_safe(&mut bindings, new, span) {
                Err(collision) => {
                    proof {
                        lemma_bound_all_stops(all, i + 1, form);
                    }
                    return Some(Err(collision));
                },
                Ok(_) => {},
            }
            i = i + 1;
        }
        assert(all.take(i as int) =~= all);
        Some(Ok(bindings))
    }

    /// Turns a tagged identifier, like `<base>#XXXXXXXX`, back into `<base>`.
    /// If the identifier is not tagged, this function just returns it.
    pub fn remove_tag(base: &str) -> (name: String)
        ensures
            name@ == untagged(base@),
    {
        untag(base)
    }

    /// Turns a base identifier into an identifier of the format `<base>#XXXXXXXX`
    /// that no name in `bindings` is equal to, with stamps that start from `seed`.
    /// `None` where as many stamps as are tried all give a name that is bound.
    pub fn unique_tag_with(base: String, bindings: &Bindings, seed: u64) -> (name: Option<String>)
        ensures
            name_option(name) == unique_name(base@, bindings@.dom(), seed),
    {
        let mut tries: usize = 0;
        while tries < TRIES
            invariant
                tries <= TRIES,
                first_free(base@, bindings@.dom(), seed, 0) == first_free(
                    base@,
                    bindings@.dom(),
                    seed,
                    tries as nat,
                ),
            decreases TRIES - tries,
        {
            let modified = tag(base.as_str(), seed, tries);
            if !bindings.contains_key(modified.as_str()) {
                return Some(modified);
            }
            tries = tries + 1;
        }
        None
    }

    /// Turns a base identifier into an identifier of the format `<base>#XXXXXXXX`
    /// that no name in `bindings` is equal to, with stamps that start from the time of day.
    pub fn unique_tag(base: String, bindings: &Bindings) -> (name: Option<String>)
        ensures
            exists|seed: u64| name_option(name) == unique_name(base@, bindings@.dom(), seed),
    {
        let seed: u64 = clock_seed();
        Rule::unique_tag_with(base, bindings, seed)
    }

    /// Resolves a symbol, with stamps that start from `seed`.
    /// If the symbol has been bound, the tree that it is bound to is spliced in.
    /// If not, it is replaced with a unique symbol, hygienically,
    /// and bound to that symbol from now on.
    pub fn resolve_symbol_with(name: String, span: Span, bindings: &mut Bindings, seed: u64) -> (result:
        Result<Spanned<AST>, Syntax>)
        ensures
            (tree_result(result), final(bindings)@) == resolved(
                name@,
                span@,
                old(bindings)@,
                seed,
            ),
    {
        reveal(resolved);
        match bindings.get(name.as_str()) {
            Some(bound_tree) => {
                return Ok(AST::duplicate_spanned(bound_tree));
            },
            None => {},
        }
        match Rule::unique_tag_with(name.clone(), bindings, seed) {
            Some(unique) => {
                let spanned = Spanned::new(AST::Symbol(unique.clone()), span.clone());
                bindings.insert(name, spanned);
                Ok(Spanned::new(AST::Symbol(unique), span))
            },
            None => Err(
                Syntax::error(
                    "Generated 1024 new unique identifiers for macro expansion, but all were already in use!",
                    &span,
                ),
            ),
        }
    }

    /// Resolves a symbol, with stamps that start from the time of day.
    pub fn resolve_symbol(name: String, span: Span, bindings: &mut Bindings) -> (result: Result<
        Spanned<AST>,
        Syntax,
    >)
        ensures
            exists|seed: u64|
                (tree_result(result), final(bindings)@) == resolved(
                    name@,
                    span@,
                    old(bindings)@,
                    seed,
                ),
    {
        let seed: u64 = clock_seed();
        Rule::resolve_symbol_with(name, span, bindings, seed)
    }
}

impl Rule {
    /// Expands the bindings in an argument pattern, with stamps that start from `seed`.
    /// Keywords stay as they are; symbols are resolved.
    pub fn expand_arg_pat_with(arg_pat: Spanned<ArgPattern>, bindings: &mut Bindings, seed: u64) -> (result:
        Result<Spanned<ArgPattern>, Syntax>)
        ensures
            (arg_result(result), final(bindings)@) == expanded_arg(
                arg_pat@,
                old(bindings)@,
                seed,
            ),
        decreases arg_pat,
    {
        reveal(arg_of);
        reveal(rebuilt);
        match arg_pat.item {
            ArgPattern::Keyword(name) => Ok(
                Spanned { item: ArgPattern::Keyword(name), span: arg_pat.span },
            ),
            ArgPattern::Symbol(name) => {
                let span = arg_pat.span.clone();
                match Rule::resolve_symbol_with(name, arg_pat.span, bindings, seed) {
                    Err(error) => Err(error),
                    Ok(tree) => match ArgPattern::from_ast(tree.item) {
                        Ok(item) => Ok(Spanned { item, span: tree.span }),
                        Err(message) => Err(Syntax::error(message.as_str(), &span)),
                    },
                }
            },
            ArgPattern::Group(sub_pat) => {
                let span = Spanned::build(&sub_pat);
                assert(spans_of(arg_models(sub_pat@)) =~= Seq::new(
                    sub_pat@.len(),
                    |i: int| sub_pat@[i].span@,
                ));
                match Rule::expand_arg_pats_with(sub_pat, bindings, seed) {
                    Err(error) => Err(error),
                    Ok(done) => Ok(Spanned::new(ArgPattern::Group(done), span)),
                }
            },
        }
    }

    /// Expands the bindings in a row of argument patterns, from left to right.
    pub fn expand_arg_pats_with(
        patterns: Vec<Spanned<ArgPattern>>,
        bindings: &mut Bindings,
        seed: u64,
    ) -> (result: Result<Vec<Spanned<ArgPattern>>, Syntax>)
        ensures
            (args_result(result), final(bindings)@) == expanded_args(
                arg_models(patterns@),
                old(bindings)@,
                seed,
            ),
        decreases patterns,
    {
        let ghost all = arg_models(patterns@);
        let ghost start = bindings@;
        let mut done: Vec<Spanned<ArgPattern>> = Vec::new();
        assert(all.take(0) =~= Seq::empty());
        assert(arg_models(done@) =~= Seq::empty());
        for pattern in it: patterns.into_iter()
            invariant
                it.seq() == patterns@,
                all == arg_models(patterns@),
                done.len() == it.index(),
                start == old(bindings)@,
                expanded_args(all.take(it.index() as int), start, seed) == (
                    Ok::<Seq<SpannedModel<ArgModel>>, SyntaxModel>(arg_models(done@)),
                    bindings@,
                ),
        {
            let ghost at = it.index() as int;
            proof {
                reveal(extended);
                axiom_vec_index_decreases(patterns, at);
                assert(all.take(at + 1).drop_last() =~= all.take(at));
                assert(all.take(at + 1).last() == pattern@);
            }
            let ghost before = done@;
            match Rule::expand_arg_pat_with(pattern, bindings, seed) {
                Ok(expanded) => {
                    done.push(expanded);
                    assert(arg_models(done@) =~= arg_models(before).push(done@[at]@));
                },
                Err(error) => {
                    proof {
                        lemma_expanded_args_stops(all, at + 1, start, seed);
                    }
                    return Err(error);
                },
            }
        }
        assert(all.take(all.len() as int) =~= all);
        Ok(done)
    }

    /// Expands the bindings in an argument pattern, with stamps that start from the time of day.
    pub fn expand_arg_pat(arg_pat: Spanned<ArgPattern>, bindings: &mut Bindings) -> (result: Result<
        Spanned<ArgPattern>,
        Syntax,
    >)
        ensures
            exists|seed: u64|
                (arg_result(result), final(bindings)@) == expanded_arg(
                    arg_pat@,
                    old(bindings)@,
                    seed,
                ),
    {
        let seed: u64 = clock_seed();
        Rule::expand_arg_pat_with(arg_pat, bindings, seed)
    }

    /// Expands the bindings in a pattern, with stamps that start from `seed`.
    pub fn expand_pattern_with(pattern: Spanned<ASTPattern>, bindings: &mut Bindings, seed: u64) -> (result:
        Result<Spanned<ASTPattern>, Syntax>)
        ensures
            (pattern_result(result), final(bindings)@) == expanded_pattern(
                pattern@,
                old(bindings)@,
                seed,
            ),
        decreases pattern,
    {
        reveal(pattern_of);
        reveal(rebuilt);
        match pattern.item {
            ASTPattern::Symbol(name) => {
                let span = pattern.span.clone();
                match Rule::resolve_symbol_with(name, pattern.span, bindings, seed) {
                    Err(error) => Err(error),
                    Ok(tree) => match ASTPattern::from_ast(tree.item) {
                        Ok(item) => Ok(Spanned { item, span: tree.span }),
                        Err(message) => Err(Syntax::error(message.as_str(), &span)),
                    },
                }
            },
            ASTPattern::Data(data) => Ok(Spanned { item: ASTPattern::Data(data), span: pattern.span }),
            ASTPattern::Label(name, inner) => {
                let span = inner.span.clone();
                match Rule::expand_pattern_with(*inner, bindings, seed) {
                    Err(error) => Err(error),
                    Ok(done) => Ok(Spanned::new(ASTPattern::Label(name, Box::new(done)), span)),
                }
            },
            ASTPattern::Chain(chain) => {
                let span = Spanned::build(&chain);
                assert(spans_of(pattern_models(chain@)) =~= Seq::new(
                    chain@.len(),
                    |i: int| chain@[i].span@,
                ));
                match Rule::expand_patterns_with(chain, bindings, seed) {
                    Err(error) => Err(error),
                    Ok(done) => Ok(Spanned::new(ASTPattern::Chain(done), span)),
                }
            },
            ASTPattern::Tuple(tuple) => {
                let span = Spanned::build(&tuple);
                assert(spans_of(pattern_models(tuple@)) =~= Seq::new(
                    tuple@.len(),
                    |i: int| tuple@[i].span@,
                ));
                match Rule::expand_patterns_with(tuple, bindings, seed) {
                    Err(error) => Err(error),
                    Ok(done) => Ok(Spanned::new(ASTPattern::Tuple(done), span)),
                }
            },
        }
    }

    /// Expands the bindings in a row of patterns, from left to right.
    pub fn expand_patterns_with(
        patterns: Vec<Spanned<ASTPattern>>,
        bindings: &mut Bindings,
        seed: u64,
    ) -> (result: Result<Vec<Spanned<ASTPattern>>, Syntax>)
        ensures
            (patterns_result(result), final(bindings)@) == expanded_patterns(
                pattern_models(patterns@),
                old(bindings)@,
                seed,
            ),
        decreases patterns,
    {
        let ghost all = pattern_models(patterns@);
        let ghost start = bindings@;
        let mut done: Vec<Spanned<ASTPattern>> = Vec::new();
        assert(all.take(0) =~= Seq::empty());
        assert(pattern_models(done@) =~= Seq::empty());
        for pattern in it: patterns.into_iter()
            invariant
                it.seq() == patterns@,
                all == pattern_models(patterns@),
                done.len() == it.index(),
                start == old(bindings)@,
                expanded_patterns(all.take(it.index() as int), start, seed) == (
                    Ok::<Seq<SpannedModel<PatternModel>>, SyntaxModel>(pattern_models(done@)),
                    bindings@,
                ),
        {
            let ghost at = it.index() as int;
            proof {
                reveal(extended);
                axiom_vec_index_decreases(patterns, at);
                assert(all.take(at + 1).drop_last() =~= all.take(at));
                assert(all.take(at + 1).last() == pattern@);
            }
            let ghost before = done@;
            match Rule::expand_pattern_with(pattern, bindings, seed) {
                Ok(expanded) => {
                    done.push(expanded);
                    assert(pattern_models(done@) =~= pattern_models(before).push(done@[at]@));
                },
                Err(error) => {
                    proof {
                        lemma_expanded_patterns_stops(all, at + 1, start, seed);
                    }
                    return Err(error);
                },
            }
        }
        assert(all.take(all.len() as int) =~= all);
        Ok(done)
    }

    /// Expands the bindings in a pattern, with stamps that start from the time of day.
    pub fn expand_pattern(pattern: Spanned<ASTPattern>, bindings: &mut Bindings) -> (result: Result<
        Spanned<ASTPattern>,
        Syntax,
    >)
        ensures
            exists|seed: u64|
                (pattern_result(result), final(bindings)@) == expanded_pattern(
                    pattern@,
                    old(bindings)@,
                    seed,
                ),
    {
        let seed: u64 = clock_seed();
        Rule::expand_pattern_with(pattern, bindings, seed)
    }

    /// Takes a macro's tree and a set of bindings and produces a new hygienic tree,
    /// with stamps that start from `seed`.
    /// A symbol that is bound is replaced by what it is bound to.
    /// One that is not is bound to a unique symbol and replaced by it,
    /// so that the next time the symbol is met it is replaced in the same way.
    pub fn expand_with(tree: Spanned<AST>, bindings: &mut Bindings, seed: u64) -> (result: Result<
        Spanned<AST>,
        Syntax,
    >)
        ensures
            (tree_result(result), final(bindings)@) == expanded(tree@, old(bindings)@, seed),
        decreases tree,
    {
        reveal(rebuilt);
        reveal(rebuilt_pair);
        let item: AST = match tree.item {
            AST::Symbol(name) => {
                return Rule::resolve_symbol_with(name, tree.span, bindings, seed);
            },
            AST::Data(data) => {
                return Ok(Spanned { item: AST::Data(data), span: tree.span });
            },
            AST::Block(forms) => match Rule::expand_all_with(forms, bindings, seed) {
                Ok(done) => AST::Block(done),
                Err(error) => {
                    return Err(error);
                },
            },
            AST::Form(branches) => match Rule::expand_all_with(branches, bindings, seed) {
                Ok(done) => AST::Form(done),
                Err(error) => {
                    return Err(error);
                },
            },
            AST::Group(expression) => match Rule::expand_with(*expression, bindings, seed) {
                Ok(done) => AST::Group(Box::new(done)),
                Err(error) => {
                    return Err(error);
                },
            },
            AST::Composition { argument, function } => {
                let a = match Rule::expand_with(*argument, bindings, seed) {
                    Ok(done) => done,
                    Err(error) => {
                        return Err(error);
                    },
                };
                let f = match Rule::expand_with(*function, bindings, seed) {
                    Ok(done) => done,
                    Err(error) => {
                        return Err(error);
                    },
                };
                AST::Composition { argument: Box::new(a), function: Box::new(f) }
            },
            AST::CSTPattern(pattern) => {
                let spanned = Spanned::new(pattern, tree.span.clone());
                match Rule::expand_pattern_with(spanned, bindings, seed) {
                    Ok(done) => AST::CSTPattern(done.item),
                    Err(error) => {
                        return Err(error);
                    },
                }
            },
            AST::ArgPattern(arg_pat) => {
                let spanned = Spanned::new(arg_pat, tree.span.clone());
                match Rule::expand_arg_pat_with(spanned, bindings, seed) {
                    Ok(done) => AST::ArgPattern(done.item),
                    Err(error) => {
                        return Err(error);
                    },
                }
            },
            AST::Assign { pattern, expression } => {
                let p = match Rule::expand_pattern_with(*pattern, bindings, seed) {
                    Ok(done) => done,
                    Err(error) => {
                        return Err(error);
                    },
                };
                let e = match Rule::expand_with(*expression, bindings, seed) {
                    Ok(done) => done,
                    Err(error) => {
                        return Err(error);
                    },
                };
                AST::Assign { pattern: Box::new(p), expression: Box::new(e) }
            },
            AST::Lambda { pattern, expression } => {
                let p = match Rule::expand_pattern_with(*pattern, bindings, seed) {
                    Ok(done) => done,
                    Err(error) => {
                        return Err(error);
                    },
                };
                let e = match Rule::expand_with(*expression, bindings, seed) {
                    Ok(done) => done,
                    Err(error) => {
                        return Err(error);
                    },
                };
                AST::Lambda { pattern: Box::new(p), expression: Box::new(e) }
            },
            AST::Label(kind, expression) => match Rule::expand_with(*expression, bindings, seed) {
                Ok(done) => AST::Label(kind, Box::new(done)),
                Err(error) => {
                    return Err(error);
                },
            },
            AST::Tuple(tuple) => match Rule::expand_all_with(tuple, bindings, seed) {
                Ok(done) => AST::Tuple(done),
                Err(error) => {
                    return Err(error);
                },
            },
            AST::Syntax { arg_pat, expression } => {
                return Err(Syntax::error("Nested macros are not allowed yet", &tree.span));
            },
            AST::FFI { name, expression } => match Rule::expand_with(*expression, bindings, seed) {
                Ok(done) => AST::FFI { name, expression: Box::new(done) },
                Err(error) => {
                    return Err(error);
                },
            },
        };
        Ok(Spanned::new(item, tree.span))
    }

    /// Expands a row of trees, from left to right.
    pub fn expand_all_with(trees: Vec<Spanned<AST>>, bindings: &mut Bindings, seed: u64) -> (result:
        Result<Vec<Spanned<AST>>, Syntax>)
        ensures
            (trees_result(result), final(bindings)@) == expanded_all(
                ast_models(trees@),
                old(bindings)@,
                seed,
            ),
        decreases trees,
    {
        let ghost all = ast_models(trees@);
        let ghost start = bindings@;
        let mut done: Vec<Spanned<AST>> = Vec::new();
        assert(all.take(0) =~= Seq::empty());
        assert(ast_models(done@) =~= Seq::empty());
        for tree in it: trees.into_iter()
            invariant
                it.seq() == trees@,
                all == ast_models(trees@),
                done.len() == it.index(),
                start == old(bindings)@,
                expanded_all(all.take(it.index() as int), start, seed) == (
                    Ok::<Seq<SpannedModel<AstModel>>, SyntaxModel>(ast_models(done@)),
                    bindings@,
                ),
        {
            let ghost at = it.index() as int;
            proof {
                reveal(extended);
                axiom_vec_index_decreases(trees, at);
                assert(all.take(at + 1).drop_last() =~= all.take(at));
                assert(all.take(at + 1).last() == tree@);
            }
            let ghost before = done@;
            match Rule::expand_with(tree, bindings, seed) {
                Ok(expanded) => {
                    done.push(expanded);
                    assert(ast_models(done@) =~= ast_models(before).push(done@[at]@));
                },
                Err(error) => {
                    proof {
                        lemma_expanded_all_stops(all, at + 1, start, seed);
                    }
                    return Err(error);
                },
            }
        }
        assert(all.take(all.len() as int) =~= all);
        Ok(done)
    }

    /// Takes a macro's tree and a set of bindings and produces a new hygienic tree,
    /// with stamps that start from the time of day.
    pub fn expand(tree: Spanned<AST>, bindings: &mut Bindings) -> (result: Result<
        Spanned<AST>,
        Syntax,
    >)
        ensures
            exists|seed: u64|
                (tree_result(result), final(bindings)@) == expanded(tree@, old(bindings)@, seed),
    {
        let seed: u64 = clock_seed();
        Rule::expand_with(tree, bindings, seed)
    }
}

} // verus!
