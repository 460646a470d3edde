//! Parser of the plain pattern language: characters, the quantifiers
//! `+ * ?`, alternation `|`, groups `( )` and escapes `\`; `.` is an ordinary
//! character here.
use vstd::prelude::*;
use crate::basic::error::ParseError;
use crate::basic::parser::{Ast, Node, escapable, parse_dialect, parse_model};

verus! {

/// Syntax tree of the plain pattern language.
#[derive(Debug, PartialEq, Eq)]
pub enum AST {
    /// A character.
    Char(char),
    /// `+`
    Plus(Box<AST>),
    /// `*`
    Star(Box<AST>),
    /// `?`
    Question(Box<AST>),
    /// `|`
    Or(Box<AST>, Box<AST>),
    /// Concatenation.
    Sequence(Vec<AST>),
}

/// A quantifier.
#[derive(Debug, Clone, Copy, PartialEq, Eq, Structural)]
pub enum Qualifier {
    /// `+`
    Plus,
    /// `*`
    Star,
    /// `?`
    Question,
}

/// The model of a tree, in the model of the basic language's trees.
pub open spec fn plain_node(a: AST) -> Node
    decreases a,
{
    match a {
        AST::Char(c) => Node::Char(c),
        AST::Plus(e) => Node::Plus(Box::new(plain_node(*e))),
        AST::Star(e) => Node::Star(Box::new(plain_node(*e))),
        AST::Question(e) => Node::Question(Box::new(plain_node(*e))),
        AST::Or(l, r) => Node::Or(Box::new(plain_node(*l)), Box::new(plain_node(*r))),
        AST::Sequence(v) => Node::Sequence(
            Seq::new(v.len() as nat, |i: int| if 0 <= i < v.len() { plain_node(v[i]) } else { Node::AnyChar }),
        ),
    }
}

impl View for AST {
    type V = Node;

    open spec fn view(&self) -> Node {
        plain_node(*self)
    }
}

/// The models of a sequence of trees.
pub open spec fn plain_nodes(v: Seq<AST>) -> Seq<Node> {
    Seq::new(v.len(), |i: int| v[i]@)
}

/// A node with `.` in place of any-character nodes.
pub open spec fn dot_as_char(n: Node) -> Node
    decreases n,
{
    match n {
        Node::AnyChar => Node::Char('.'),
        Node::Char(c) => Node::Char(c),
        Node::Plus(e) => Node::Plus(Box::new(dot_as_char(*e))),
        Node::Star(e) => Node::Star(Box::new(dot_as_char(*e))),
        Node::Question(e) => Node::Question(Box::new(dot_as_char(*e))),
        Node::Or(l, r) => Node::Or(Box::new(dot_as_char(*l)), Box::new(dot_as_char(*r))),
        Node::Sequence(v) => Node::Sequence(
            Seq::new(v.len(), |i: int| if 0 <= i < v.len() { dot_as_char(v[i]) } else { Node::AnyChar }),
        ),
    }
}

/// The model of a concatenation holds the models of its parts.
pub proof fn lemma_plain_sequence_view(v: Vec<AST>)
    ensures
        AST::Sequence(v)@ == Node::Sequence(plain_nodes(v@)),
{
    let a = AST::Sequence(v);
    assert(a@->Sequence_0 =~= plain_nodes(v@));
}

/// The tree of the plain language for a tree of the basic one.
fn from_basic(a: &Ast) -> (r: AST)
    ensures
        r@ == dot_as_char(a@),
    decreases a, 1int,
{
    match a {
        Ast::AnyChar => AST::Char('.'),
        Ast::Char(c) => AST::Char(*c),
        Ast::Plus(e) => AST::Plus(Box::new(from_basic(e))),
        Ast::Star(e) => AST::Star(Box::new(from_basic(e))),
        Ast::Question(e) => AST::Question(Box::new(from_basic(e))),
        Ast::Or(l, r) => AST::Or(Box::new(from_basic(l)), Box::new(from_basic(r))),
        Ast::Sequence(v) => {
            proof {
                crate::basic::parser::lemma_seq_view(*v);
            }
            let out = from_basic_all(v);
            proof {
                lemma_plain_sequence_view(out);
            }
            let r = AST::Sequence(out);
            assert(r@->Sequence_0 =~= dot_as_char(a@)->Sequence_0);
            r
        },
    }
}

/// The trees of the plain language for trees of the basic one.
fn from_basic_all(v: &Vec<Ast>) -> (r: Vec<AST>)
    ensures
        r@.len() == v@.len(),
        forall|j: int| 0 <= j < v@.len() ==> #[trigger] r@[j]@ == dot_as_char(v@[j]@),
    decreases v, 0int,
{
    let mut out: Vec<AST> = Vec::new();
    for i in 0..v.len()
        invariant
            out@.len() == i,
            forall|j: int| 0 <= j < i ==> #[trigger] out@[j]@ == dot_as_char(v@[j]@),
    {
        let converted = from_basic(&v[i]);
        out.push(converted);
    }
    out
}

/// The tree of an escaped character.
pub fn parse_escape(pos: usize, c: char) -> (r: Result<AST, ParseError>)
    ensures
        escapable(c, false) ==> (r matches Ok(a) && a@ == Node::Char(c)),
        !escapable(c, false) ==> r == Err::<AST, ParseError>(ParseError::InvalidEscape(pos, c)),
{
    if c == '\\' || c == '(' || c == ')' || c == '|' || c == '+' || c == '*' || c == '?' {
        Ok(AST::Char(c))
    } else {
        Err(ParseError::InvalidEscape(pos, c))
    }
}

/// The tree of a quantifier applied to `prev`.
pub fn parse_qualifier(qualifier: Qualifier, prev: AST) -> (r: AST)
    ensures
        r@ == match qualifier {
            Qualifier::Plus => Node::Plus(Box::new(prev@)),
            Qualifier::Star => Node::Star(Box::new(prev@)),
            Qualifier::Question => Node::Question(Box::new(prev@)),
        },
{
    match qualifier {
        Qualifier::Plus => AST::Plus(Box::new(prev)),
        Qualifier::Star => AST::Star(Box::new(prev)),
        Qualifier::Question => AST::Question(Box::new(prev)),
    }
}

/// The quantifier a character stands for, if any.
pub fn convert_char_to_qualifier(c: char) -> (r: Option<Qualifier>)
    ensures
        r == (if c == '+' {
            Some(Qualifier::Plus)
        } else if c == '*' {
            Some(Qualifier::Star)
        } else if c == '?' {
            Some(Qualifier::Question)
        } else {
            None
        }),
{
    match c {
        '+' => Some(Qualifier::Plus),
        '*' => Some(Qualifier::Star),
        '?' => Some(Qualifier::Question),
        _ => None,
    }
}

/// Joins alternatives with `Or`, nested to the right.
pub fn fold_or(seq_or: Vec<AST>) -> (r: Option<AST>)
    ensures
        match crate::basic::parser::fold_alts(plain_nodes(seq_or@)) {
            Some(n) => r matches Some(a) && a@ == n,
            None => r is None,
        },
{
    let mut rest = seq_or;
    let ghost all = plain_nodes(rest@);
    let mut ast = match rest.pop() {
        Some(a) => a,
        None => {
            assert(all.len() == 0);
            return None;
        },
    };
    assert(plain_nodes(rest@) =~= all.drop_last());
    while rest.len() > 0
        invariant
            crate::basic::parser::or_chain(plain_nodes(rest@), ast@) == crate::basic::parser::or_chain(
                all.drop_last(),
                all.last(),
            ),
        decreases rest.len(),
    {
        let ghost before = plain_nodes(rest@);
        let s = rest.pop().unwrap();
        assert(plain_nodes(rest@) =~= before.drop_last());
        ast = AST::Or(Box::new(s), Box::new(ast));
    }
    assert(plain_nodes(rest@) =~= Seq::<Node>::empty());
    Some(ast)
}

/// Parses a pattern of the plain language; the tree is the one the basic
/// parser gives when `.` is an ordinary character.
pub fn parse(pattern: &str) -> (r: Result<AST, ParseError>)
    ensures
        match parse_model(pattern@, false) {
            Ok(n) => r matches Ok(a) && a@ == dot_as_char(n),
            Err(e) => r == Err::<AST, ParseError>(e),
        },
{
    match parse_dialect(pattern, false) {
        Ok(a) => Ok(from_basic(&a)),
        Err(e) => Err(e),
    }
}

} // verus!
