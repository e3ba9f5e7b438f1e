//! The syntax tree that the parser hands over, before macros are expanded.

use vstd::prelude::*;
use crate::data::{Data, DataModel};
use vstd::std_specs::vec::axiom_vec_index_decreases;
use crate::span::{Spanned, SpannedModel};

verus! {

/// The left-hand side of a macro: what a form has to look like for the macro to apply.
#[derive(Debug, PartialEq, Eq)]
pub enum ArgPattern {
    /// A word that has to stand in the form as it is written here.
    Keyword(String),
    /// A name for whatever stands in the form at this place.
    Symbol(String),
    /// Several patterns in a row.
    Group(Vec<Spanned<ArgPattern>>),
}

/// A pattern that a value is taken apart with.
#[derive(Debug, PartialEq, Eq)]
pub enum ASTPattern {
    Symbol(String),
    Data(Data),
    Label(String, Box<Spanned<ASTPattern>>),
    Chain(Vec<Spanned<ASTPattern>>),
    Tuple(Vec<Spanned<ASTPattern>>),
}

/// A node of the syntax tree.
#[derive(Debug, PartialEq, Eq)]
pub enum AST {
    Symbol(String),
    Data(Data),
    Block(Vec<Spanned<AST>>),
    Form(Vec<Spanned<AST>>),
    Group(Box<Spanned<AST>>),
    Composition { argument: Box<Spanned<AST>>, function: Box<Spanned<AST>> },
    CSTPattern(ASTPattern),
    ArgPattern(ArgPattern),
    Assign { pattern: Box<Spanned<ASTPattern>>, expression: Box<Spanned<AST>> },
    Lambda { pattern: Box<Spanned<ASTPattern>>, expression: Box<Spanned<AST>> },
    Label(String, Box<Spanned<AST>>),
    Tuple(Vec<Spanned<AST>>),
    Syntax { arg_pat: Box<Spanned<ArgPattern>>, expression: Box<Spanned<AST>> },
    FFI { name: String, expression: Box<Spanned<AST>> },
}

/// What an `ArgPattern` holds.
pub ghost enum ArgModel {
    Keyword(Seq<char>),
    Symbol(Seq<char>),
    Group(Seq<SpannedModel<ArgModel>>),
}

/// What an `ASTPattern` holds.
pub ghost enum PatternModel {
    Symbol(Seq<char>),
    Data(DataModel),
    Label(Seq<char>, Box<SpannedModel<PatternModel>>),
    Chain(Seq<SpannedModel<PatternModel>>),
    Tuple(Seq<SpannedModel<PatternModel>>),
}

/// What an `AST` holds.
pub ghost enum AstModel {
    Symbol(Seq<char>),
    Data(DataModel),
    Block(Seq<SpannedModel<AstModel>>),
    Form(Seq<SpannedModel<AstModel>>),
    Group(Box<SpannedModel<AstModel>>),
    Composition { argument: Box<SpannedModel<AstModel>>, function: Box<SpannedModel<AstModel>> },
    CSTPattern(PatternModel),
    ArgPattern(ArgModel),
    Assign { pattern: Box<SpannedModel<PatternModel>>, expression: Box<SpannedModel<AstModel>> },
    Lambda { pattern: Box<SpannedModel<PatternModel>>, expression: Box<SpannedModel<AstModel>> },
    Label(Seq<char>, Box<SpannedModel<AstModel>>),
    Tuple(Seq<SpannedModel<AstModel>>),
    Syntax { arg_pat: Box<SpannedModel<ArgModel>>, expression: Box<SpannedModel<AstModel>> },
    FFI { name: Seq<char>, expression: Box<SpannedModel<AstModel>> },
}

/// What an argument pattern holds.
pub open spec fn arg_model(pattern: ArgPattern) -> ArgModel
    decreases pattern,
{
    match pattern {
        ArgPattern::Keyword(name) => ArgModel::Keyword(name@),
        ArgPattern::Symbol(name) => ArgModel::Symbol(name@),
        ArgPattern::Group(patterns) => ArgModel::Group(arg_models(patterns@)),
    }
}

/// What an argument pattern and its span hold.
pub open spec fn spanned_arg_model(pattern: Spanned<ArgPattern>) -> SpannedModel<ArgModel>
    decreases pattern,
{
    SpannedModel { item: arg_model(pattern.item), span: pattern.span@ }
}

/// What each of a row of argument patterns holds.
pub open spec fn arg_models(patterns: Seq<Spanned<ArgPattern>>) -> Seq<SpannedModel<ArgModel>>
    decreases patterns,
{
    Seq::new(
        patterns.len(),
        |i: int|
            if 0 <= i < patterns.len() {
                spanned_arg_model(patterns[i])
            } else {
                arbitrary()
            },
    )
}

/// What a pattern holds.
pub open spec fn pattern_model(pattern: ASTPattern) -> PatternModel
    decreases pattern,
{
    match pattern {
        ASTPattern::Symbol(name) => PatternModel::Symbol(name@),
        ASTPattern::Data(data) => PatternModel::Data(data@),
        ASTPattern::Label(name, inner) => PatternModel::Label(
            name@,
            Box::new(spanned_pattern_model(*inner)),
        ),
        ASTPattern::Chain(patterns) => PatternModel::Chain(pattern_models(patterns@)),
        ASTPattern::Tuple(patterns) => PatternModel::Tuple(pattern_models(patterns@)),
    }
}

/// What a pattern and its span hold.
pub open spec fn spanned_pattern_model(pattern: Spanned<ASTPattern>) -> SpannedModel<PatternModel>
    decreases pattern,
{
    SpannedModel { item: pattern_model(pattern.item), span: pattern.span@ }
}

/// What each of a row of patterns holds.
pub open spec fn pattern_models(patterns: Seq<Spanned<ASTPattern>>) -> Seq<
    SpannedModel<PatternModel>,
>
    decreases patterns,
{
    Seq::new(
        patterns.len(),
        |i: int|
            if 0 <= i < patterns.len() {
                spanned_pattern_model(patterns[i])
            } else {
                arbitrary()
            },
    )
}

/// What a node holds.
pub open spec fn ast_model(tree: AST) -> AstModel
    decreases tree,
{
    match tree {
        AST::Symbol(name) => AstModel::Symbol(name@),
        AST::Data(data) => AstModel::Data(data@),
        AST::Block(trees) => AstModel::Block(ast_models(trees@)),
        AST::Form(trees) => AstModel::Form(ast_models(trees@)),
        AST::Group(inner) => AstModel::Group(Box::new(spanned_ast_model(*inner))),
        AST::Composition { argument, function } => AstModel::Composition {
            argument: Box::new(spanned_ast_model(*argument)),
            function: Box::new(spanned_ast_model(*function)),
        },
        AST::CSTPattern(pattern) => AstModel::CSTPattern(pattern_model(pattern)),
        AST::ArgPattern(pattern) => AstModel::ArgPattern(arg_model(pattern)),
        AST::Assign { pattern, expression } => AstModel::Assign {
            pattern: Box::new(spanned_pattern_model(*pattern)),
            expression: Box::new(spanned_ast_model(*expression)),
        },
        AST::Lambda { pattern, expression } => AstModel::Lambda {
            pattern: Box::new(spanned_pattern_model(*pattern)),
            expression: Box::new(spanned_ast_model(*expression)),
        },
        AST::Label(name, inner) => AstModel::Label(name@, Box::new(spanned_ast_model(*inner))),
        AST::Tuple(trees) => AstModel::Tuple(ast_models(trees@)),
        AST::Syntax { arg_pat, expression } => AstModel::Syntax {
            arg_pat: Box::new(spanned_arg_model(*arg_pat)),
            expression: Box::new(spanned_ast_model(*expression)),
        },
        AST::FFI { name, expression } => AstModel::FFI {
            name: name@,
            expression: Box::new(spanned_ast_model(*expression)),
        },
    }
}

/// What a node and its span hold.
pub open spec fn spanned_ast_model(tree: Spanned<AST>) -> SpannedModel<AstModel>
    decreases tree,
{
    SpannedModel { item: ast_model(tree.item), span: tree.span@ }
}

/// What each of a row of nodes holds.
pub open spec fn ast_models(trees: Seq<Spanned<AST>>) -> Seq<SpannedModel<AstModel>>
    decreases trees,
{
    Seq::new(
        trees.len(),
        |i: int|
            if 0 <= i < trees.len() {
                spanned_ast_model(trees[i])
            } else {
                arbitrary()
            },
    )
}

impl View for ArgPattern {
    type V = ArgModel;

    open spec fn view(&self) -> ArgModel {
        arg_model(*self)
    }
}

impl View for ASTPattern {
    type V = PatternModel;

    open spec fn view(&self) -> PatternModel {
        pattern_model(*self)
    }
}

impl View for AST {
    type V = AstModel;

    open spec fn view(&self) -> AstModel {
        ast_model(*self)
    }
}

impl ArgPattern {
    /// A copy of the pattern.
    pub fn duplicate(&self) -> (copy: ArgPattern)
        ensures
            copy@ == self@,
        decreases self,
    {
        match self {
            ArgPattern::Keyword(name) => ArgPattern::Keyword(name.clone()),
            ArgPattern::Symbol(name) => ArgPattern::Symbol(name.clone()),
            ArgPattern::Group(patterns) => ArgPattern::Group(ArgPattern::duplicate_all(patterns)),
        }
    }

    /// A copy of the pattern and its span.
    pub fn duplicate_spanned(pattern: &Spanned<ArgPattern>) -> (copy: Spanned<ArgPattern>)
        ensures
            copy@ == pattern@,
        decreases pattern,
    {
        Spanned { item: pattern.item.duplicate(), span: pattern.span.clone() }
    }

    /// A copy of each pattern of a row.
    pub fn duplicate_all(patterns: &Vec<Spanned<ArgPattern>>) -> (copies: Vec<Spanned<ArgPattern>>)
        ensures
            arg_models(copies@) == arg_models(patterns@),
        decreases patterns,
    {
        let mut copies: Vec<Spanned<ArgPattern>> = Vec::new();
        let mut i: usize = 0;
        while i < patterns.len()
            invariant
                i <= patterns.len(),
                copies.len() == i,
                forall|j: int| 0 <= j < i ==> copies@[j]@ == patterns@[j]@,
            decreases patterns.len() - i,
        {
            proof {
                axiom_vec_index_decreases(*patterns, i as int);
            }
            copies.push(ArgPattern::duplicate_spanned(&patterns[i]));
            i = i + 1;
        }
        assert(arg_models(copies@) =~= arg_models(patterns@));
        copies
    }
}

impl ASTPattern {
    /// A copy of the pattern.
    pub fn duplicate(&self) -> (copy: ASTPattern)
        ensures
            copy@ == self@,
        decreases self,
    {
        match self {
            ASTPattern::Symbol(name) => ASTPattern::Symbol(name.clone()),
            ASTPattern::Data(data) => ASTPattern::Data(data.duplicate()),
            ASTPattern::Label(name, inner) => ASTPattern::Label(
                name.clone(),
                Box::new(ASTPattern::duplicate_spanned(inner)),
            ),
            ASTPattern::Chain(patterns) => ASTPattern::Chain(ASTPattern::duplicate_all(patterns)),
            ASTPattern::Tuple(patterns) => ASTPattern::Tuple(ASTPattern::duplicate_all(patterns)),
        }
    }

    /// A copy of the pattern and its span.
    pub fn duplicate_spanned(pattern: &Spanned<ASTPattern>) -> (copy: Spanned<ASTPattern>)
        ensures
            copy@ == pattern@,
        decreases pattern,
    {
        Spanned { item: pattern.item.duplicate(), span: pattern.span.clone() }
    }

    /// A copy of each pattern of a row.
    pub fn duplicate_all(patterns: &Vec<Spanned<ASTPattern>>) -> (copies: Vec<Spanned<ASTPattern>>)
        ensures
            pattern_models(copies@) == pattern_models(patterns@),
        decreases patterns,
    {
        let mut copies: Vec<Spanned<ASTPattern>> = Vec::new();
        let mut i: usize = 0;
        while i < patterns.len()
            invariant
                i <= patterns.len(),
                copies.len() == i,
                forall|j: int| 0 <= j < i ==> copies@[j]@ == patterns@[j]@,
            decreases patterns.len() - i,
        {
            proof {
                axiom_vec_index_decreases(*patterns, i as int);
            }
            copies.push(ASTPattern::duplicate_spanned(&patterns[i]));
            i = i + 1;
        }
        assert(pattern_models(copies@) =~= pattern_models(patterns@));
        copies
    }
}

impl AST {
    /// A copy of the node.
    pub fn duplicate(&self) -> (copy: AST)
        ensures
            copy@ == self@,
        decreases self,
    {
        match self {
            AST::Symbol(name) => AST::Symbol(name.clone()),
            AST::Data(data) => AST::Data(data.duplicate()),
            AST::Block(trees) => AST::Block(AST::duplicate_all(trees)),
            AST::Form(trees) => AST::Form(AST::duplicate_all(trees)),
            AST::Group(inner) => AST::Group(Box::new(AST::duplicate_spanned(inner))),
            AST::Composition { argument, function } => AST::Composition {
                argument: Box::new(AST::duplicate_spanned(argument)),
                function: Box::new(AST::duplicate_spanned(function)),
            },
            AST::CSTPattern(pattern) => AST::CSTPattern(pattern.duplicate()),
            AST::ArgPattern(pattern) => AST::ArgPattern(pattern.duplicate()),
            AST::Assign { pattern, expression } => AST::Assign {
                pattern: Box::new(ASTPattern::duplicate_spanned(pattern)),
                expression: Box::new(AST::duplicate_spanned(expression)),
            },
            AST::Lambda { pattern, expression } => AST::Lambda {
                pattern: Box::new(ASTPattern::duplicate_spanned(pattern)),
                expression: Box::new(AST::duplicate_spanned(expression)),
            },
            AST::Label(name, inner) => AST::Label(
                name.clone(),
                Box::new(AST::duplicate_spanned(inner)),
            ),
            AST::Tuple(trees) => AST::Tuple(AST::duplicate_all(trees)),
            AST::Syntax { arg_pat, expression } => AST::Syntax {
                arg_pat: Box::new(ArgPattern::duplicate_spanned(arg_pat)),
                expression: Box::new(AST::duplicate_spanned(expression)),
            },
            AST::FFI { name, expression } => AST::FFI {
                name: name.clone(),
                expression: Box::new(AST::duplicate_spanned(expression)),
            },
        }
    }

    /// A copy of the node and its span.
    pub fn duplicate_spanned(tree: &Spanned<AST>) -> (copy: Spanned<AST>)
        ensures
            copy@ == tree@,
        decreases tree,
    {
        Spanned { item: tree.item.duplicate(), span: tree.span.clone() }
    }

    /// A copy of each node of a row.
    pub fn duplicate_all(trees: &Vec<Spanned<AST>>) -> (copies: Vec<Spanned<AST>>)
        ensures
            ast_models(copies@) == ast_models(trees@),
        decreases trees,
    {
        let mut copies: Vec<Spanned<AST>> = Vec::new();
        let mut i: usize = 0;
        while i < trees.len()
            invariant
                i <= trees.len(),
                copies.len() == i,
                forall|j: int| 0 <= j < i ==> copies@[j]@ == trees@[j]@,
            decreases trees.len() - i,
        {
            proof {
                axiom_vec_index_decreases(*trees, i as int);
            }
            copies.push(AST::duplicate_spanned(&trees[i]));
            i = i + 1;
        }
        assert(ast_models(copies@) =~= ast_models(trees@));
        copies
    }
}

/// What a result holds that is a pattern or a message.
pub open spec fn pattern_outcome(result: Result<ASTPattern, String>) -> Result<
    PatternModel,
    Seq<char>,
> {
    match result {
        Ok(pattern) => Ok(pattern@),
        Err(message) => Err(message@),
    }
}

/// What a result holds that is a row of patterns or a message.
pub open spec fn patterns_outcome(result: Result<Vec<Spanned<ASTPattern>>, String>) -> Result<
    Seq<SpannedModel<PatternModel>>,
    Seq<char>,
> {
    match result {
        Ok(patterns) => Ok(pattern_models(patterns@)),
        Err(message) => Err(message@),
    }
}

impl AstModel {
    /// The node seen as a pattern, or a message that says why it is none.
    pub open spec fn as_pattern(self) -> Result<PatternModel, Seq<char>>
        decreases self,
    {
        match self {
            AstModel::Symbol(name) => Ok(PatternModel::Symbol(name)),
            AstModel::Data(data) => Ok(PatternModel::Data(data)),
            AstModel::Label(kind, inner) => match inner.item.as_pattern() {
                Ok(pattern) => Ok(
                    PatternModel::Label(
                        kind,
                        Box::new(SpannedModel { item: pattern, span: inner.span }),
                    ),
                ),
                Err(message) => Err(message),
            },
            AstModel::CSTPattern(pattern) => Ok(pattern),
            AstModel::Form(items) => match AstModel::as_patterns(items) {
                Ok(patterns) => Ok(PatternModel::Chain(patterns)),
                Err(message) => Err(message),
            },
            AstModel::Tuple(items) => match AstModel::as_patterns(items) {
                Ok(patterns) => Ok(PatternModel::Tuple(patterns)),
                Err(message) => Err(message),
            },
            _ => Err("Unexpected construct inside pattern"@),
        }
    }

    /// A row of nodes seen as patterns, or the message of the first that is none.
    pub open spec fn as_patterns(items: Seq<SpannedModel<AstModel>>) -> Result<
        Seq<SpannedModel<PatternModel>>,
        Seq<char>,
    >
        decreases items,
    {
        if items.len() == 0 {
            Ok(Seq::empty())
        } else {
            match AstModel::as_patterns(items.drop_last()) {
                Err(message) => Err(message),
                Ok(patterns) => match items.last().item.as_pattern() {
                    Err(message) => Err(message),
                    Ok(pattern) => Ok(
                        patterns.push(SpannedModel { item: pattern, span: items.last().span }),
                    ),
                },
            }
        }
    }
}

impl ASTPattern {
    /// Sees a node as a pattern, or says why it is none.
    pub fn from_ast(tree: AST) -> (result: Result<ASTPattern, String>)
        ensures
            pattern_outcome(result) == tree@.as_pattern(),
        decreases tree,
    {
        match tree {
            AST::Symbol(name) => Ok(ASTPattern::Symbol(name)),
            AST::Data(data) => Ok(ASTPattern::Data(data)),
            AST::Label(kind, inner) => {
                let inner = *inner;
                match ASTPattern::from_ast(inner.item) {
                    Ok(pattern) => Ok(
                        ASTPattern::Label(kind, Box::new(Spanned { item: pattern, span: inner.span })),
                    ),
                    Err(message) => Err(message),
                }
            },
            AST::CSTPattern(pattern) => Ok(pattern),
            AST::Form(items) => match ASTPattern::from_asts(items) {
                Ok(patterns) => Ok(ASTPattern::Chain(patterns)),
                Err(message) => Err(message),
            },
            AST::Tuple(items) => match ASTPattern::from_asts(items) {
                Ok(patterns) => Ok(ASTPattern::Tuple(patterns)),
                Err(message) => Err(message),
            },
            _ => Err("Unexpected construct inside pattern".to_owned()),
        }
    }

    /// Sees each node of a row as a pattern, or says why the first that is none is none.
    pub fn from_asts(items: Vec<Spanned<AST>>) -> (result: Result<Vec<Spanned<ASTPattern>>, String>)
        ensures
            patterns_outcome(result) == AstModel::as_patterns(ast_models(items@)),
        decreases items,
    {
        let ghost all = ast_models(items@);
        let mut patterns: Vec<Spanned<ASTPattern>> = Vec::new();
        assert(all.take(0) =~= Seq::empty());
        assert(pattern_models(patterns@) =~= Seq::empty());
        for item in it: items.into_iter()
            invariant
                it.seq() == items@,
                all == ast_models(items@),
                patterns.len() == it.index(),
                AstModel::as_patterns(all.take(it.index() as int)) == Ok::<
                    Seq<SpannedModel<PatternModel>>,
                    Seq<char>,
                >(pattern_models(patterns@)),
        {
            let ghost at = it.index() as int;
            proof {
                axiom_vec_index_decreases(items, at);
                assert(all.take(at + 1).drop_last() =~= all.take(at));
                assert(all.take(at + 1).last() == item@);
            }
            let ghost before = patterns@;
            match ASTPattern::from_ast(item.item) {
                Ok(pattern) => {
                    patterns.push(Spanned { item: pattern, span: item.span });
                    assert(pattern_models(patterns@) =~= pattern_models(before).push(
                        patterns@[at]@,
                    ));
                },
                Err(message) => {
                    proof {
                        AstModel::lemma_as_patterns_fails(all, at + 1);
                    }
                    return Err(message);
                },
            }
        }
        assert(all.take(all.len() as int) =~= all);
        Ok(patterns)
    }
}

impl AstModel {
    /// Once a front part of a row holds a node that is no pattern,
    /// the whole row fails with the same message.
    pub proof fn lemma_as_patterns_fails(items: Seq<SpannedModel<AstModel>>, front: int)
        requires
            0 <= front <= items.len(),
            AstModel::as_patterns(items.take(front)) is Err,
        ensures
            AstModel::as_patterns(items) == AstModel::as_patterns(items.take(front)),
        decreases items.len() - front,
    {
        if front < items.len() {
            assert(items.take(front + 1).drop_last() =~= items.take(front));
            AstModel::lemma_as_patterns_fails(items, front + 1);
        } else {
            assert(items.take(front) =~= items);
        }
    }
}

/// What a result holds that is an argument pattern or a message.
pub open spec fn arg_outcome(result: Result<ArgPattern, String>) -> Result<ArgModel, Seq<char>> {
    match result {
        Ok(pattern) => Ok(pattern@),
        Err(message) => Err(message@),
    }
}

/// What a result holds that is a row of argument patterns or a message.
pub open spec fn args_outcome(result: Result<Vec<Spanned<ArgPattern>>, String>) -> Result<
    Seq<SpannedModel<ArgModel>>,
    Seq<char>,
> {
    match result {
        Ok(patterns) => Ok(arg_models(patterns@)),
        Err(message) => Err(message@),
    }
}

impl AstModel {
    /// The node seen as an argument pattern, or a message that says why it is none.
    pub open spec fn as_arg_pattern(self) -> Result<ArgModel, Seq<char>>
        decreases self,
    {
        match self {
            AstModel::Symbol(name) => Ok(ArgModel::Symbol(name)),
            AstModel::ArgPattern(pattern) => Ok(pattern),
            AstModel::Form(items) => match AstModel::as_arg_patterns(items) {
                Ok(patterns) => Ok(ArgModel::Group(patterns)),
                Err(message) => Err(message),
            },
            _ => Err("Unexpected construct inside argument pattern"@),
        }
    }

    /// A row of nodes seen as argument patterns, or the message of the first that is none.
    pub open spec fn as_arg_patterns(items: Seq<SpannedModel<AstModel>>) -> Result<
        Seq<SpannedModel<ArgModel>>,
        Seq<char>,
    >
        decreases items,
    {
        if items.len() == 0 {
            Ok(Seq::empty())
        } else {
            match AstModel::as_arg_patterns(items.drop_last()) {
                Err(message) => Err(message),
                Ok(patterns) => match items.last().item.as_arg_pattern() {
                    Err(message) => Err(message),
                    Ok(pattern) => Ok(
                        patterns.push(SpannedModel { item: pattern, span: items.last().span }),
                    ),
                },
            }
        }
    }

    /// Once a front part of a row holds a node that is no argument pattern,
    /// the whole row fails with the same message.
    pub proof fn lemma_as_arg_patterns_fails(items: Seq<SpannedModel<AstModel>>, front: int)
        requires
            0 <= front <= items.len(),
            AstModel::as_arg_patterns(items.take(front)) is Err,
        ensures
            AstModel::as_arg_patterns(items) == AstModel::as_arg_patterns(items.take(front)),
        decreases items.len() - front,
    {
        if front < items.len() {
            assert(items.take(front + 1).drop_last() =~= items.take(front));
            AstModel::lemma_as_arg_patterns_fails(items, front + 1);
        } else {
            assert(items.take(front) =~= items);
        }
    }
}

impl ArgPattern {
    /// Sees a node as an argument pattern, or says why it is none.
    pub fn from_ast(tree: AST) -> (result: Result<ArgPattern, String>)
        ensures
            arg_outcome(result) == tree@.as_arg_pattern(),
        decreases tree,
    {
        match tree {
            AST::Symbol(name) => Ok(ArgPattern::Symbol(name)),
            AST::ArgPattern(pattern) => Ok(pattern),
            AST::Form(items) => match ArgPattern::from_asts(items) {
                Ok(patterns) => Ok(ArgPattern::Group(patterns)),
                Err(message) => Err(message),
            },
            _ => Err("Unexpected construct inside argument pattern".to_owned()),
        }
    }

    /// Sees each node of a row as an argument pattern,
    /// or says why the first that is none is none.
    pub fn from_asts(items: Vec<Spanned<AST>>) -> (result: Result<Vec<Spanned<ArgPattern>>, String>)
        ensures
            args_outcome(result) == AstModel::as_arg_patterns(ast_models(items@)),
        decreases items,
    {
        let ghost all = ast_models(items@);
        let mut patterns: Vec<Spanned<ArgPattern>> = Vec::new();
        assert(all.take(0) =~= Seq::empty());
        assert(arg_models(patterns@) =~= Seq::empty());
        for item in it: items.into_iter()
            invariant
                it.seq() == items@,
                all == ast_models(items@),
                patterns.len() == it.index(),
                AstModel::as_arg_patterns(all.take(it.index() as int)) == Ok::<
                    Seq<SpannedModel<ArgModel>>,
                    Seq<char>,
                >(arg_models(patterns@)),
        {
            let ghost at = it.index() as int;
            proof {
                axiom_vec_index_decreases(items, at);
                assert(all.take(at + 1).drop_last() =~= all.take(at));
                assert(all.take(at + 1).last() == item@);
            }
            let ghost before = patterns@;
            match ArgPattern::from_ast(item.item) {
                Ok(pattern) => {
                    patterns.push(Spanned { item: pattern, span: item.span });
                    assert(arg_models(patterns@) =~= arg_models(before).push(patterns@[at]@));
                },
                Err(message) => {
                    proof {
                        AstModel::lemma_as_arg_patterns_fails(all, at + 1);
                    }
                    return Err(message);
                },
            }
        }
        assert(all.take(all.len() as int) =~= all);
        Ok(patterns)
    }
}

impl Clone for ArgPattern {
    fn clone(&self) -> (copy: ArgPattern)
        ensures
            copy@ == self@,
    {
        self.duplicate()
    }
}

impl Clone for ASTPattern {
    fn clone(&self) -> (copy: ASTPattern)
        ensures
            copy@ == self@,
    {
        self.duplicate()
    }
}

impl Clone for AST {
    fn clone(&self) -> (copy: AST)
        ensures
            copy@ == self@,
    {
        self.duplicate()
    }
}

} // verus!
