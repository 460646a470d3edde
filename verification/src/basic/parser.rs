//! Stack-based parser of the basic pattern language: characters, `.`,
//! the quantifiers `+ * ?`, alternation `|`, groups `( )` and escapes `\`.
//!
//! The parser reads the pattern one character at a time; `step` says what one
//! character does to the parser's state, and `parse_model` what the whole
//! pattern gives.
use vstd::prelude::*;
use crate::basic::error::ParseError;
use crate::text::chars_of;

verus! {

/// Syntax tree of the basic pattern language.
#[derive(Debug, PartialEq, Eq)]
pub enum Ast {
    /// `.`: any character.
    AnyChar,
    /// A character.
    Char(char),
    /// `+`
    Plus(Box<Ast>),
    /// `*`
    Star(Box<Ast>),
    /// `?`
    Question(Box<Ast>),
    /// `|`
    Or(Box<Ast>, Box<Ast>),
    /// Concatenation.
    Sequence(Vec<Ast>),
}

/// Model of a tree: the same shape, with sequences in place of vectors.
pub enum Node {
    AnyChar,
    Char(char),
    Plus(Box<Node>),
    Star(Box<Node>),
    Question(Box<Node>),
    Or(Box<Node>, Box<Node>),
    Sequence(Seq<Node>),
}

/// The model of a tree.
pub open spec fn node_of(a: Ast) -> Node
    decreases a,
{
    match a {
        Ast::AnyChar => Node::AnyChar,
        Ast::Char(c) => Node::Char(c),
        Ast::Plus(e) => Node::Plus(Box::new(node_of(*e))),
        Ast::Star(e) => Node::Star(Box::new(node_of(*e))),
        Ast::Question(e) => Node::Question(Box::new(node_of(*e))),
        Ast::Or(l, r) => Node::Or(Box::new(node_of(*l)), Box::new(node_of(*r))),
        Ast::Sequence(v) => Node::Sequence(
            Seq::new(v.len() as nat, |i: int| if 0 <= i < v.len() { node_of(v[i]) } else { Node::AnyChar }),
        ),
    }
}

impl View for Ast {
    type V = Node;

    open spec fn view(&self) -> Node {
        node_of(*self)
    }
}

/// The models of a sequence of trees.
pub open spec fn nodes(v: Seq<Ast>) -> Seq<Node> {
    Seq::new(v.len(), |i: int| v[i]@)
}

/// The model of a concatenation holds the models of its parts.
pub proof fn lemma_seq_view(v: Vec<Ast>)
    ensures
        Ast::Sequence(v)@ == Node::Sequence(nodes(v@)),
{
    let a = Ast::Sequence(v);
    assert(a@->Sequence_0 =~= nodes(v@));
}

/// Whether `\` may precede `c`; `.` may be escaped where it means any
/// character (`dot`).
pub open spec fn escapable(c: char, dot: bool) -> bool {
    c == '\\' || c == '(' || c == ')' || c == '|' || c == '+' || c == '*' || c == '?' || (dot && c
        == '.')
}

/// The tree of a quantifier `q` applied to `prev`.
pub open spec fn quantified(q: char, prev: Node) -> Node {
    if q == '+' {
        Node::Plus(Box::new(prev))
    } else if q == '*' {
        Node::Star(Box::new(prev))
    } else {
        Node::Question(Box::new(prev))
    }
}

/// `Or(init[0], Or(init[1], ... Or(init[n-1], last)))`.
pub open spec fn or_chain(init: Seq<Node>, last: Node) -> Node
    decreases init.len(),
{
    if init.len() == 0 {
        last
    } else {
        or_chain(init.drop_last(), Node::Or(Box::new(init.last()), Box::new(last)))
    }
}

/// The alternatives joined by `Or`, nested to the right; `None` for none.
pub open spec fn fold_alts(v: Seq<Node>) -> Option<Node> {
    if v.len() == 0 {
        None
    } else {
        Some(or_chain(v.drop_last(), v.last()))
    }
}

/// The parser's state: the current concatenation, the alternatives closed
/// so far, the enclosing groups' states, and whether a `\` was just read.
pub struct PState {
    pub seq: Seq<Node>,
    pub alts: Seq<Node>,
    pub stack: Seq<(Seq<Node>, Seq<Node>)>,
    pub escape: bool,
}

/// The alternatives with the current concatenation added, when it is not empty.
pub open spec fn closed_alts(st: PState) -> Seq<Node> {
    if st.seq.len() > 0 {
        st.alts.push(Node::Sequence(st.seq))
    } else {
        st.alts
    }
}

/// What reading `c` at position `pos` does.
pub open spec fn step(st: PState, pos: int, c: char, dot: bool) -> Result<PState, ParseError> {
    if st.escape {
        if escapable(c, dot) {
            Ok(PState { seq: st.seq.push(Node::Char(c)), escape: false, ..st })
        } else {
            Err(ParseError::InvalidEscape(pos as usize, c))
        }
    } else if c == '+' || c == '*' || c == '?' {
        if st.seq.len() == 0 {
            Err(ParseError::NoPrev(pos as usize))
        } else {
            Ok(PState { seq: st.seq.drop_last().push(quantified(c, st.seq.last())), ..st })
        }
    } else if c == '(' {
        Ok(PState { seq: Seq::empty(), alts: Seq::empty(), stack: st.stack.push((st.seq, st.alts)), escape: false })
    } else if c == ')' {
        if st.stack.len() == 0 {
            Err(ParseError::InvalidRightParen(pos as usize))
        } else {
            let prev = st.stack.last().0;
            let seq = match fold_alts(closed_alts(st)) {
                Some(a) => prev.push(a),
                None => prev,
            };
            Ok(PState { seq, alts: st.stack.last().1, stack: st.stack.drop_last(), escape: false })
        }
    } else if c == '|' {
        Ok(PState { seq: Seq::empty(), alts: st.alts.push(Node::Sequence(st.seq)), ..st })
    } else if c == '\\' {
        Ok(PState { escape: true, ..st })
    } else if dot && c == '.' {
        Ok(PState { seq: st.seq.push(Node::AnyChar), ..st })
    } else {
        Ok(PState { seq: st.seq.push(Node::Char(c)), ..st })
    }
}

/// The state after reading `s` from position `i` on.
pub open spec fn run_from(s: Seq<char>, i: int, st: PState, dot: bool) -> Result<PState, ParseError>
    decreases s.len() - i,
{
    if i >= s.len() || i < 0 {
        Ok(st)
    } else {
        match step(st, i, s[i], dot) {
            Ok(st2) => run_from(s, i + 1, st2, dot),
            Err(e) => Err(e),
        }
    }
}

/// The tree at the end of the pattern.
pub open spec fn finish(st: PState) -> Result<Node, ParseError> {
    if st.stack.len() > 0 {
        Err(ParseError::NoRightParen)
    } else {
        match fold_alts(closed_alts(st)) {
            Some(a) => Ok(a),
            None => Err(ParseError::Empty),
        }
    }
}

/// The state before the first character.
pub open spec fn start_state() -> PState {
    PState { seq: Seq::empty(), alts: Seq::empty(), stack: Seq::empty(), escape: false }
}

/// What parsing `s` gives; `dot` tells whether `.` means any character.
pub open spec fn parse_model(s: Seq<char>, dot: bool) -> Result<Node, ParseError> {
    match run_from(s, 0, start_state(), dot) {
        Ok(st) => finish(st),
        Err(e) => Err(e),
    }
}

/// The models of the stack of enclosing groups.
pub open spec fn frames(v: Seq<(Vec<Ast>, Vec<Ast>)>) -> Seq<(Seq<Node>, Seq<Node>)> {
    Seq::new(v.len(), |i: int| (nodes(v[i].0@), nodes(v[i].1@)))
}

/// The tree of an escaped character.
pub fn parse_escape(pos: usize, c: char) -> (r: Result<Ast, ParseError>)
    ensures
        escapable(c, true) ==> (r matches Ok(a) && a@ == Node::Char(c)),
        !escapable(c, true) ==> r == Err::<Ast, ParseError>(ParseError::InvalidEscape(pos, c)),
{
    escape_in(pos, c, true)
}

/// The tree of an escaped character in the given dialect.
pub(crate) fn escape_in(pos: usize, c: char, dot: bool) -> (r: Result<Ast, ParseError>)
    ensures
        escapable(c, dot) ==> (r matches Ok(a) && a@ == Node::Char(c)),
        !escapable(c, dot) ==> r == Err::<Ast, ParseError>(ParseError::InvalidEscape(pos, c)),
{
    if c == '\\' || c == '(' || c == ')' || c == '|' || c == '+' || c == '*' || c == '?' || (dot
        && c == '.') {
        Ok(Ast::Char(c))
    } else {
        Err(ParseError::InvalidEscape(pos, c))
    }
}

/// The tree of the quantifier `qualifier` (`+`, `*` or `?`) applied to `prev`.
pub fn parse_qualifier(qualifier: char, prev: Ast) -> (r: Ast)
    requires
        qualifier == '+' || qualifier == '*' || qualifier == '?',
    ensures
        r@ == quantified(qualifier, prev@),
{
    if qualifier == '+' {
        Ast::Plus(Box::new(prev))
    } else if qualifier == '*' {
        Ast::Star(Box::new(prev))
    } else {
        Ast::Question(Box::new(prev))
    }
}

/// Joins alternatives with `Or`, nested to the right.
pub fn fold_or(seq_or: Vec<Ast>) -> (r: Option<Ast>)
    ensures
        match fold_alts(nodes(seq_or@)) {
            Some(n) => r matches Some(a) && a@ == n,
            None => r is None,
        },
{
    let mut rest = seq_or;
    let ghost all = nodes(rest@);
    let mut ast = match rest.pop() {
        Some(a) => a,
        None => {
            assert(all.len() == 0);
            return None;
        },
    };
    assert(nodes(rest@) =~= all.drop_last());
    while rest.len() > 0
        invariant
            or_chain(nodes(rest@), ast@) == or_chain(all.drop_last(), all.last()),
        decreases rest.len(),
    {
        let ghost before = nodes(rest@);
        let s = rest.pop().unwrap();
        assert(nodes(rest@) =~= before.drop_last());
        ast = Ast::Or(Box::new(s), Box::new(ast));
    }
    assert(nodes(rest@) =~= Seq::<Node>::empty());
    Some(ast)
}

/// Adds `Sequence(seq)` to the alternatives when `seq` is not empty.
fn close_alt(seq_or: &mut Vec<Ast>, seq: Vec<Ast>)
    ensures
        nodes(final(seq_or)@) == (if seq@.len() > 0 {
            nodes(old(seq_or)@).push(Node::Sequence(nodes(seq@)))
        } else {
            nodes(old(seq_or)@)
        }),
{
    if seq.len() > 0 {
        proof {
            lemma_seq_view(seq);
        }
        let ghost before = nodes(seq_or@);
        seq_or.push(Ast::Sequence(seq));
        assert(nodes(seq_or@) =~= before.push(Node::Sequence(nodes(seq@))));
    }
}

/// The parser's working state.
struct ParserState {
    seq: Vec<Ast>,
    seq_or: Vec<Ast>,
    stack: Vec<(Vec<Ast>, Vec<Ast>)>,
    is_escape: bool,
}

impl View for ParserState {
    type V = PState;

    closed spec fn view(&self) -> PState {
        PState {
            seq: nodes(self.seq@),
            alts: nodes(self.seq_or@),
            stack: frames(self.stack@),
            escape: self.is_escape,
        }
    }
}

impl ParserState {
    /// Reads the character `c` at position `pos`.
    fn read(&mut self, pos: usize, c: char, dot: bool) -> (r: Result<(), ParseError>)
        ensures
            match step(old(self)@, pos as int, c, dot) {
                Ok(st) => r is Ok && final(self)@ == st,
                Err(e) => r == Err::<(), ParseError>(e),
            },
    {
        let ghost st = self@;
        if self.is_escape {
            self.is_escape = false;
            let escaped = escape_in(pos, c, dot);
            let ast = match escaped {
                Ok(a) => a,
                Err(e) => return Err(e),
            };
            let ghost before = nodes(self.seq@);
            let ghost v = ast@;
            self.seq.push(ast);
            assert(nodes(self.seq@) =~= before.push(v));
        } else if c == '+' || c == '*' || c == '?' {
            let prev_ast = match self.seq.pop() {
                Some(a) => a,
                None => return Err(ParseError::NoPrev(pos)),
            };
            assert(nodes(self.seq@) =~= st.seq.drop_last());
            let ast = parse_qualifier(c, prev_ast);
            let ghost v = ast@;
            self.seq.push(ast);
            assert(nodes(self.seq@) =~= st.seq.drop_last().push(v));
        } else if c == '(' {
            let mut prev: Vec<Ast> = Vec::new();
            let mut prev_or: Vec<Ast> = Vec::new();
            std::mem::swap(&mut prev, &mut self.seq);
            std::mem::swap(&mut prev_or, &mut self.seq_or);
            self.stack.push((prev, prev_or));
            assert(nodes(self.seq@) =~= Seq::<Node>::empty());
            assert(nodes(self.seq_or@) =~= Seq::<Node>::empty());
            assert(frames(self.stack@) =~= st.stack.push((st.seq, st.alts)));
        } else if c == ')' {
            let (mut prev, prev_or) = match self.stack.pop() {
                Some(frame) => frame,
                None => return Err(ParseError::InvalidRightParen(pos)),
            };
            assert(frames(self.stack@) =~= st.stack.drop_last());
            assert(st.stack.last() == (nodes(prev@), nodes(prev_or@)));
            let mut current: Vec<Ast> = Vec::new();
            std::mem::swap(&mut current, &mut self.seq);
            let mut alts: Vec<Ast> = Vec::new();
            std::mem::swap(&mut alts, &mut self.seq_or);
            close_alt(&mut alts, current);
            let ghost before = nodes(prev@);
            if let Some(ast) = fold_or(alts) {
                let ghost v = ast@;
                prev.push(ast);
                assert(nodes(prev@) =~= before.push(v));
            }
            self.seq = prev;
            self.seq_or = prev_or;
        } else if c == '|' {
            let mut prev: Vec<Ast> = Vec::new();
            std::mem::swap(&mut prev, &mut self.seq);
            proof {
                lemma_seq_view(prev);
            }
            self.seq_or.push(Ast::Sequence(prev));
            assert(nodes(self.seq@) =~= Seq::<Node>::empty());
            assert(nodes(self.seq_or@) =~= st.alts.push(Node::Sequence(st.seq)));
        } else if c == '\\' {
            self.is_escape = true;
        } else if dot && c == '.' {
            self.seq.push(Ast::AnyChar);
            assert(nodes(self.seq@) =~= st.seq.push(Node::AnyChar));
        } else {
            self.seq.push(Ast::Char(c));
            assert(nodes(self.seq@) =~= st.seq.push(Node::Char(c)));
        }
        Ok(())
    }
}

/// Parses `pattern`; `dot` tells whether `.` means any character.
pub(crate) fn parse_dialect(pattern: &str, dot: bool) -> (r: Result<Ast, ParseError>)
    ensures
        match parse_model(pattern@, dot) {
            Ok(n) => r matches Ok(a) && a@ == n,
            Err(e) => r == Err::<Ast, ParseError>(e),
        },
{
    let chars = chars_of(pattern);
    let ghost s = chars@;
    let mut state = ParserState {
        seq: Vec::new(),
        seq_or: Vec::new(),
        stack: Vec::new(),
        is_escape: false,
    };
    proof {
        assert(nodes(state.seq@) =~= Seq::<Node>::empty());
        assert(nodes(state.seq_or@) =~= Seq::<Node>::empty());
        assert(frames(state.stack@) =~= Seq::<(Seq<Node>, Seq<Node>)>::empty());
        assert(state@ == start_state());
    }
    let mut pos: usize = 0;
    while pos < chars.len()
        invariant
            s == chars@,
            s == pattern@,
            pos <= s.len(),
            run_from(s, 0, start_state(), dot) == run_from(s, pos as int, state@, dot),
        decreases s.len() - pos,
    {
        let c = chars[pos];
        match state.read(pos, c, dot) {
            Ok(()) => {},
            Err(e) => return Err(e),
        }
        pos = pos + 1;
    }
    if state.stack.len() > 0 {
        return Err(ParseError::NoRightParen);
    }
    let ParserState { seq, mut seq_or, .. } = state;
    close_alt(&mut seq_or, seq);
    match fold_or(seq_or) {
        Some(ast) => Ok(ast),
        None => Err(ParseError::Empty),
    }
}

/// Parses a pattern of the basic language into its tree.
pub fn parse(pattern: &str) -> (r: Result<Ast, ParseError>)
    ensures
        match parse_model(pattern@, true) {
            Ok(n) => r matches Ok(a) && a@ == n,
            Err(e) => r == Err::<Ast, ParseError>(e),
        },
{
    parse_dialect(pattern, true)
}

} // verus!
