//! Syntax tree of a pattern, and its mathematical model.
use vstd::prelude::*;

verus! {

/// Inclusive character range `[start, end]`.
#[derive(Debug, Clone, Copy, PartialEq, Eq, Structural)]
pub struct CharRange {
    /// Inclusive start character.
    pub start: char,
    /// Inclusive end character.
    pub end: char,
}

/// Character class: a list of inclusive ranges, possibly negated (`[^...]`).
#[derive(Debug, Clone, PartialEq, Eq)]
pub struct CharClass {
    /// Ranges that belong to the class.
    pub ranges: Vec<CharRange>,
    /// Whether the class is negated.
    pub negated: bool,
}

/// Model of a character class.
pub struct ClassModel {
    pub ranges: Seq<CharRange>,
    pub negated: bool,
}

impl View for CharClass {
    type V = ClassModel;

    open spec fn view(&self) -> ClassModel {
        ClassModel { ranges: self.ranges@, negated: self.negated }
    }
}

/// Whether `c` lies in one of `ranges`.
pub open spec fn in_ranges(ranges: Seq<CharRange>, c: char) -> bool {
    exists|i: int| 0 <= i < ranges.len() && ranges[i].start <= c && c <= ranges[i].end
}

/// Whether the class accepts the character `c`.
pub open spec fn class_accepts(class: ClassModel, c: char) -> bool {
    in_ranges(class.ranges, c) != class.negated
}

impl CharClass {
    /// Creates a character class from ranges and a negation flag.
    pub fn new(ranges: Vec<CharRange>, negated: bool) -> (r: Self)
        ensures
            r.ranges@ == ranges@,
            r.negated == negated,
    {
        CharClass { ranges, negated }
    }
}

/// Zero-width assertion kinds.
#[derive(Debug, Clone, Copy, PartialEq, Eq, Structural)]
pub enum Predicate {
    /// Line start (`^`).
    StartOfLine,
    /// Line end (`$`).
    EndOfLine,
    /// Text start.
    StartOfText,
    /// Text end.
    EndOfText,
    /// Word boundary.
    WordBoundary,
    /// Not a word boundary.
    NonWordBoundary,
}

/// Pattern syntax tree.
#[derive(Debug, PartialEq, Eq)]
pub enum Ast {
    /// Empty expression.
    Empty,
    /// One character from a class.
    CharClass(CharClass),
    /// Zero-width assertion.
    Assertion(Predicate),
    /// Capturing group with its 1-based index.
    Capture { expr: Box<Ast>, index: usize },
    /// `*`
    ZeroOrMore { expr: Box<Ast>, greedy: bool },
    /// `+`
    OneOrMore { expr: Box<Ast>, greedy: bool },
    /// `?`
    ZeroOrOne { expr: Box<Ast>, greedy: bool },
    /// `{m}`, `{m,}`, `{m,n}`
    Repeat { expr: Box<Ast>, greedy: bool, min: u32, max: Option<u32> },
    /// Concatenation.
    Concat(Vec<Ast>),
    /// Alternation `|`.
    Alternate(Box<Ast>, Box<Ast>),
    /// Backreference `\n`.
    Backreference(usize),
}

/// Model of a syntax tree: the same shape, with sequences in place of vectors.
pub enum AstModel {
    Empty,
    Class(ClassModel),
    Assertion(Predicate),
    Capture(Box<AstModel>, usize),
    ZeroOrMore(Box<AstModel>, bool),
    OneOrMore(Box<AstModel>, bool),
    ZeroOrOne(Box<AstModel>, bool),
    Repeat(Box<AstModel>, bool, u32, Option<u32>),
    Concat(Seq<AstModel>),
    Alternate(Box<AstModel>, Box<AstModel>),
    Backreference(usize),
}

/// The model of a tree.
pub open spec fn ast_model(a: Ast) -> AstModel
    decreases a,
{
    match a {
        Ast::Empty => AstModel::Empty,
        Ast::CharClass(class) => AstModel::Class(class@),
        Ast::Assertion(p) => AstModel::Assertion(p),
        Ast::Capture { expr, index } => AstModel::Capture(Box::new(ast_model(*expr)), index),
        Ast::ZeroOrMore { expr, greedy } => AstModel::ZeroOrMore(Box::new(ast_model(*expr)), greedy),
        Ast::OneOrMore { expr, greedy } => AstModel::OneOrMore(Box::new(ast_model(*expr)), greedy),
        Ast::ZeroOrOne { expr, greedy } => AstModel::ZeroOrOne(Box::new(ast_model(*expr)), greedy),
        Ast::Repeat { expr, greedy, min, max } => AstModel::Repeat(
            Box::new(ast_model(*expr)),
            greedy,
            min,
            max,
        ),
        Ast::Concat(v) => AstModel::Concat(
            Seq::new(v.len() as nat, |i: int| if 0 <= i < v.len() { ast_model(v[i]) } else { AstModel::Empty }),
        ),
        Ast::Alternate(l, r) => AstModel::Alternate(Box::new(ast_model(*l)), Box::new(ast_model(*r))),
        Ast::Backreference(n) => AstModel::Backreference(n),
    }
}

impl View for Ast {
    type V = AstModel;

    open spec fn view(&self) -> AstModel {
        ast_model(*self)
    }
}

/// The models of a sequence of trees.
pub open spec fn views(v: Seq<Ast>) -> Seq<AstModel> {
    Seq::new(v.len(), |i: int| v[i]@)
}

/// The model of a concatenation holds the models of its parts.
pub proof fn lemma_concat_view(v: Vec<Ast>)
    ensures
        Ast::Concat(v)@ == AstModel::Concat(views(v@)),
{
    let a = Ast::Concat(v);
    let w = a@->Concat_0;
    assert(w =~= views(v@));
}

/// The class that accepts exactly the character `c`.
pub open spec fn literal_class(c: char) -> ClassModel {
    ClassModel { ranges: seq![CharRange { start: c, end: c }], negated: false }
}

} // verus!
