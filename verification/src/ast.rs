//! The parser: recursive descent over a token buffer, building `Node`
//! trees with structural error recovery.
//!
//! The model is the mutually recursive family `spec_parse_expression` /
//! `spec_parse_children` / `spec_parse_function` / `spec_parse_top`, which
//! consumes a token sequence front to back.  Unrecognized tokens become
//! `Invalid` nodes and their tree positions are recorded rather than
//! aborting the parse; recording is suspended inside `fn` literals, whose
//! interior is not addressable by child indices from the root.

use vstd::prelude::*;

use crate::lexer::{SpecPos, Token, TokenPosition, TokenType};
use crate::node::{
    nodes_view, path_view, paths_view, pos_view, spec_last_char, spec_node_at, spec_node_of,
    ASTPosition, Node, SpecNode,
};

verus! {

/// Failure of the parser: unrecoverable structural errors.
#[derive(Clone, Copy, Debug, PartialEq)]
pub enum ParseError {
    /// A token was needed and the input was exhausted.
    NoExpression,
    /// A `)` stood where an expression was expected.
    UnexpectedRParen(TokenPosition),
    /// A `]` stood where an expression was expected.
    UnexpectedRSquare(TokenPosition),
    /// A `(` form reached the end of input before its `)`.
    UnterminatedExpression(TokenPosition),
    /// A `[` form reached the end of input before its `]`.
    UnterminatedList(TokenPosition),
    /// A `'` token, which the grammar gives no meaning.
    UnsupportedQuote(TokenPosition),
    /// The argument form of a `fn` literal was not a list.
    InvalidFunctionArguments,
    /// The argument list of a `fn` literal held a non-identifier.
    ArgumentsNotWords,
}

/// The image of a `ParseError`.
pub ghost enum SpecParseError {
    NoExpression,
    UnexpectedRParen(SpecPos),
    UnexpectedRSquare(SpecPos),
    UnterminatedExpression(SpecPos),
    UnterminatedList(SpecPos),
    UnsupportedQuote(SpecPos),
    InvalidFunctionArguments,
    ArgumentsNotWords,
}

/// The image of a parse error.
pub open spec fn parse_error_view(e: ParseError) -> SpecParseError {
    match e {
        ParseError::NoExpression => SpecParseError::NoExpression,
        ParseError::UnexpectedRParen(p) => SpecParseError::UnexpectedRParen(pos_view(p)),
        ParseError::UnexpectedRSquare(p) => SpecParseError::UnexpectedRSquare(pos_view(p)),
        ParseError::UnterminatedExpression(p) => SpecParseError::UnterminatedExpression(
            pos_view(p),
        ),
        ParseError::UnterminatedList(p) => SpecParseError::UnterminatedList(pos_view(p)),
        ParseError::UnsupportedQuote(p) => SpecParseError::UnsupportedQuote(pos_view(p)),
        ParseError::InvalidFunctionArguments => SpecParseError::InvalidFunctionArguments,
        ParseError::ArgumentsNotWords => SpecParseError::ArgumentsNotWords,
    }
}

/// Outcome of parsing one expression: the node, the tokens left, and the
/// tree positions of `Invalid` nodes recorded along the way.
pub ghost struct ParsedExpr {
    pub node: SpecNode,
    pub rest: Seq<Token>,
    pub errs: Seq<Seq<int>>,
}

/// Outcome of parsing a bracketed child list, closer consumed.
pub ghost struct ParsedSeq {
    pub nodes: Seq<SpecNode>,
    pub rest: Seq<Token>,
    pub errs: Seq<Seq<int>>,
}

/// Outcome of parsing a whole program.
pub ghost struct ParsedTop {
    pub root: SpecNode,
    pub errs: Seq<Seq<int>>,
}

/// Parse one expression from the front of `ts`.  `cur` is the tree
/// position of the node being parsed; `rec` tells whether `Invalid`
/// positions are recorded (it is off inside `fn` literals).
pub open spec fn spec_parse_expression(ts: Seq<Token>, cur: Seq<int>, rec: bool) -> Result<
    ParsedExpr,
    SpecParseError,
>
    decreases ts.len(), 0int,
{
    if ts.len() == 0 {
        Err(SpecParseError::NoExpression)
    } else {
        let t = ts[0];
        let rest0 = ts.drop_first();
        match t.token_type {
            TokenType::Comment => spec_parse_expression(rest0, cur, rec),
            TokenType::LParen => match spec_parse_children(
                rest0,
                cur,
                0,
                rec,
                false,
                Seq::empty(),
            ) {
                Err(e) => Err(e),
                Ok(ps) => Ok(
                    ParsedExpr {
                        node: SpecNode::Expression(ps.nodes),
                        rest: ps.rest,
                        errs: ps.errs,
                    },
                ),
            },
            TokenType::RParen => Err(SpecParseError::UnexpectedRParen(t@.end)),
            TokenType::LSquare => match spec_parse_children(
                rest0,
                cur,
                0,
                rec,
                true,
                Seq::empty(),
            ) {
                Err(e) => Err(e),
                Ok(ps) => Ok(
                    ParsedExpr { node: SpecNode::List(ps.nodes), rest: ps.rest, errs: ps.errs },
                ),
            },
            TokenType::RSquare => Err(SpecParseError::UnexpectedRSquare(t@.end)),
            TokenType::StringLiteral => Ok(
                ParsedExpr { node: SpecNode::StringLiteral(t@), rest: rest0, errs: Seq::empty() },
            ),
            TokenType::NumberLiteral => Ok(
                ParsedExpr { node: SpecNode::NumberLiteral(t@), rest: rest0, errs: Seq::empty() },
            ),
            TokenType::Word => if t.value@ == "fn"@ {
                spec_parse_function(rest0, t, cur)
            } else if t.value@ == "true"@ || t.value@ == "false"@ {
                Ok(
                    ParsedExpr {
                        node: SpecNode::BooleanLiteral(t@),
                        rest: rest0,
                        errs: Seq::empty(),
                    },
                )
            } else {
                Ok(ParsedExpr { node: SpecNode::Word(t@), rest: rest0, errs: Seq::empty() })
            },
            TokenType::Unknown => Ok(
                ParsedExpr { node: SpecNode::Invalid(t@), rest: rest0, errs: Seq::empty() },
            ),
            TokenType::SingleQuote => Err(SpecParseError::UnsupportedQuote(t@.end)),
        }
    }
}

/// The positions to record for one parsed child: its own tree position
/// when it is an `Invalid` node and recording is on.
pub open spec fn here_spec(rec: bool, node: SpecNode, at: Seq<int>) -> Seq<Seq<int>> {
    if rec && node is Invalid {
        seq![at]
    } else {
        Seq::empty()
    }
}

/// Parse children until the closing bracket (`]` when `lsq`, else `)`),
/// consuming the closer.  `base` is the parent's tree position and `j` the
/// index of the next child; `acc` holds the children parsed so far.
pub open spec fn spec_parse_children(
    ts: Seq<Token>,
    base: Seq<int>,
    j: int,
    rec: bool,
    lsq: bool,
    acc: Seq<SpecNode>,
) -> Result<ParsedSeq, SpecParseError>
    decreases ts.len(), 2int,
{
    if ts.len() == 0 {
        let p = if acc.len() > 0 {
            spec_last_char(acc.last())
        } else {
            SpecPos { line: 0, col: 0 }
        };
        if lsq {
            Err(SpecParseError::UnterminatedList(p))
        } else {
            Err(SpecParseError::UnterminatedExpression(p))
        }
    } else if ts[0].token_type is Comment {
        spec_parse_children(ts.drop_first(), base, j, rec, lsq, acc)
    } else if (lsq && ts[0].token_type is RSquare) || (!lsq && ts[0].token_type is RParen) {
        Ok(ParsedSeq { nodes: acc, rest: ts.drop_first(), errs: Seq::empty() })
    } else {
        match spec_parse_expression(ts, base.push(j), rec) {
            Err(e) => Err(e),
            Ok(pe) => if pe.rest.len() < ts.len() {
                let here = here_spec(rec, pe.node, base.push(j));
                match spec_parse_children(pe.rest, base, j + 1, rec, lsq, acc.push(pe.node)) {
                    Err(e) => Err(e),
                    Ok(ps) => Ok(
                        ParsedSeq {
                            nodes: ps.nodes,
                            rest: ps.rest,
                            errs: pe.errs + here + ps.errs,
                        },
                    ),
                }
            } else {
                Err(SpecParseError::NoExpression)
            },
        }
    }
}

/// Parse a `fn` literal after its `fn` word: an argument list of words,
/// then a body, the body coerced to an `Expression` if it is not one.
/// Positions of `Invalid` nodes in its interior are not recorded.
pub open spec fn spec_parse_function(ts: Seq<Token>, fn_tok: Token, cur: Seq<int>) -> Result<
    ParsedExpr,
    SpecParseError,
>
    decreases ts.len(), 1int,
{
    match spec_parse_expression(ts, cur, false) {
        Err(e) => Err(e),
        Ok(a) => if a.rest.len() <= ts.len() {
            match a.node {
                SpecNode::List(ws) => if forall|i: int| 0 <= i < ws.len() ==> ws[i] is Word {
                    match spec_parse_expression(a.rest, cur, false) {
                        Err(e) => Err(e),
                        Ok(b) => {
                            let body = if b.node is Expression {
                                b.node
                            } else {
                                SpecNode::Expression(seq![b.node])
                            };
                            Ok(
                                ParsedExpr {
                                    node: SpecNode::FunctionLiteral {
                                        token: fn_tok@,
                                        arguments: ws,
                                        body: Box::new(body),
                                    },
                                    rest: b.rest,
                                    errs: Seq::empty(),
                                },
                            )
                        },
                    }
                } else {
                    Err(SpecParseError::ArgumentsNotWords)
                },
                _ => Err(SpecParseError::InvalidFunctionArguments),
            }
        } else {
            Err(SpecParseError::NoExpression)
        },
    }
}

/// Parse a whole program: top-level expressions accumulate as the children
/// of a synthetic root `Expression`, leading comments skipped.
pub open spec fn spec_parse_top(ts: Seq<Token>, j: int, acc: Seq<SpecNode>) -> Result<
    ParsedTop,
    SpecParseError,
>
    decreases ts.len(), 3int,
{
    if ts.len() == 0 {
        Ok(ParsedTop { root: SpecNode::Expression(acc), errs: Seq::empty() })
    } else if ts[0].token_type is Comment {
        spec_parse_top(ts.drop_first(), j, acc)
    } else {
        match spec_parse_expression(ts, seq![j], true) {
            Err(e) => Err(e),
            Ok(pe) => if pe.rest.len() < ts.len() {
                let here = here_spec(true, pe.node, seq![j]);
                match spec_parse_top(pe.rest, j + 1, acc.push(pe.node)) {
                    Err(e) => Err(e),
                    Ok(pt) => Ok(ParsedTop { root: pt.root, errs: pe.errs + here + pt.errs }),
                }
            } else {
                Err(SpecParseError::NoExpression)
            },
        }
    }
}

/// A successful parse always consumes at least one token.
pub proof fn lemma_parse_consumes(ts: Seq<Token>, cur: Seq<int>, rec: bool)
    ensures
        spec_parse_expression(ts, cur, rec) matches Ok(pe) ==> pe.rest.len() < ts.len(),
    decreases ts.len(), 0int,
{
    if ts.len() > 0 {
        let t = ts[0];
        let rest0 = ts.drop_first();
        match t.token_type {
            TokenType::Comment => {
                lemma_parse_consumes(rest0, cur, rec);
            },
            TokenType::LParen => {
                lemma_children_consume(rest0, cur, 0, rec, false, Seq::empty());
            },
            TokenType::LSquare => {
                lemma_children_consume(rest0, cur, 0, rec, true, Seq::empty());
            },
            TokenType::Word => {
                if t.value@ == "fn"@ {
                    lemma_function_consumes(rest0, t, cur);
                }
            },
            _ => {},
        }
    }
}

/// A successful child-list parse consumes at least its closer.
pub proof fn lemma_children_consume(
    ts: Seq<Token>,
    base: Seq<int>,
    j: int,
    rec: bool,
    lsq: bool,
    acc: Seq<SpecNode>,
)
    ensures
        spec_parse_children(ts, base, j, rec, lsq, acc) matches Ok(ps) ==> ps.rest.len()
            < ts.len(),
    decreases ts.len(), 2int,
{
    if ts.len() == 0 {
    } else if ts[0].token_type is Comment {
        lemma_children_consume(ts.drop_first(), base, j, rec, lsq, acc);
    } else if (lsq && ts[0].token_type is RSquare) || (!lsq && ts[0].token_type is RParen) {
    } else {
        lemma_parse_consumes(ts, base.push(j), rec);
        match spec_parse_expression(ts, base.push(j), rec) {
            Err(_) => {},
            Ok(pe) => {
                lemma_children_consume(pe.rest, base, j + 1, rec, lsq, acc.push(pe.node));
            },
        }
    }
}

/// A successful `fn` literal parse consumes at least one token.
pub proof fn lemma_function_consumes(ts: Seq<Token>, fn_tok: Token, cur: Seq<int>)
    ensures
        spec_parse_function(ts, fn_tok, cur) matches Ok(pe) ==> pe.rest.len() < ts.len(),
    decreases ts.len(), 1int,
{
    lemma_parse_consumes(ts, cur, false);
    match spec_parse_expression(ts, cur, false) {
        Err(_) => {},
        Ok(a) => {
            lemma_parse_consumes(a.rest, cur, false);
        },
    }
}

/// Copy a tree position.
fn copy_path(v: &Vec<usize>) -> (r: Vec<usize>)
    ensures
        r@ == v@,
{
    let mut out: Vec<usize> = Vec::new();
    let n = v.len();
    let mut i: usize = 0;
    while i < n
        invariant
            i <= n,
            n == v@.len(),
            out@ == v@.take(i as int),
        decreases n - i,
    {
        out.push(v[i]);
        i = i + 1;
        proof {
            assert(out@ =~= v@.take(i as int));
        }
    }
    proof {
        assert(out@ =~= v@);
    }
    out
}

/// The parser: a token buffer consumed from the front, the tree position
/// of the node being built, and the recorded positions of `Invalid` nodes.
#[derive(Debug)]
pub struct AST {
    tokens: Vec<Token>,
    current_position: Vec<usize>,
    errors: Vec<ASTPosition>,
    record: bool,
}

/// The mathematical content of an `AST`: the tokens still to parse, in
/// source order; the current tree position; the recorded error positions;
/// and whether recording is on.
pub ghost struct ASTView {
    pub tokens: Seq<Token>,
    pub position: Seq<int>,
    pub errors: Seq<Seq<int>>,
    pub record: bool,
}

impl View for AST {
    type V = ASTView;

    closed spec fn view(&self) -> ASTView {
        ASTView {
            tokens: self.tokens@.reverse(),
            position: path_view(self.current_position@),
            errors: paths_view(self.errors@),
            record: self.record,
        }
    }
}

impl AST {
    /// A parser over `tokens`; at least one token is needed.
    pub fn with_tokens(tokens: Vec<Token>) -> (r: AST)
        requires
            tokens@.len() > 0,
        ensures
            r@.tokens == tokens@,
            r@.position == seq![0int],
            r@.errors == Seq::<Seq<int>>::empty(),
            r@.record == true,
    {
        let mut rev: Vec<Token> = Vec::new();
        let n = tokens.len();
        let mut i: usize = 0;
        while i < n
            invariant
                i <= n,
                n == tokens@.len(),
                rev@.len() == i,
                forall|m: int| 0 <= m < i ==> rev@[m] == tokens@[n - 1 - m],
            decreases n - i,
        {
            rev.push(tokens[n - 1 - i].duplicate());
            i = i + 1;
        }
        let mut current_position: Vec<usize> = Vec::new();
        current_position.push(0);
        let r = AST { tokens: rev, current_position, errors: Vec::new(), record: true };
        proof {
            assert(r@.tokens =~= tokens@);
            assert(r@.position =~= seq![0int]);
            assert(r@.errors =~= Seq::<Seq<int>>::empty());
        }
        r
    }

    /// The recorded tree positions of `Invalid` nodes.
    pub fn errors(&self) -> (r: &Vec<ASTPosition>)
        ensures
            paths_view(r@) == self@.errors,
    {
        &self.errors
    }

    /// Whether any `Invalid` node position was recorded.
    pub fn has_errors(&self) -> (r: bool)
        ensures
            r == (self@.errors.len() > 0),
    {
        !self.errors.is_empty()
    }

    /// Take the next token off the front of the buffer.
    fn pop_token(&mut self) -> (r: Option<Token>)
        ensures
            final(self)@.position == old(self)@.position,
            final(self)@.errors == old(self)@.errors,
            final(self)@.record == old(self)@.record,
            old(self)@.tokens.len() == 0 ==> r is None && final(self)@.tokens == old(self)@.tokens,
            old(self)@.tokens.len() > 0 ==> r == Some(old(self)@.tokens[0]) && final(self)@.tokens
                == old(self)@.tokens.drop_first(),
    {
        let r = self.tokens.pop();
        proof {
            if old(self).tokens@.len() > 0 {
                assert(old(self)@.tokens[0] == old(self).tokens@[old(self).tokens@.len() - 1]);
                assert(self@.tokens =~= old(self)@.tokens.drop_first());
            } else {
                assert(self@.tokens =~= old(self)@.tokens);
            }
        }
        r
    }

    /// Parse one expression, per `spec_parse_expression` at the current
    /// tree position.
    fn parse_expression(&mut self) -> (r: Result<Node, ParseError>)
        ensures
            match r {
                Ok(node) => {
                    &&& spec_parse_expression(
                        old(self)@.tokens,
                        old(self)@.position,
                        old(self)@.record,
                    ) == Ok::<ParsedExpr, SpecParseError>(
                        ParsedExpr {
                            node: node@,
                            rest: final(self)@.tokens,
                            errs: final(self)@.errors.skip(old(self)@.errors.len() as int),
                        },
                    )
                    &&& final(self)@.errors.take(old(self)@.errors.len() as int) == old(
                        self,
                    )@.errors
                    &&& final(self)@.position == old(self)@.position
                    &&& final(self)@.record == old(self)@.record
                    &&& final(self)@.tokens.len() < old(self)@.tokens.len()
                    &&& final(self)@.errors.len() >= old(self)@.errors.len()
                    &&& (old(self)@.record == false ==> final(self)@.errors == old(self)@.errors)
                },
                Err(e) => spec_parse_expression(
                    old(self)@.tokens,
                    old(self)@.position,
                    old(self)@.record,
                ) == Err::<ParsedExpr, SpecParseError>(parse_error_view(e)),
            },
        decreases self@.tokens.len(), 0int,
    {
        let ghost ts0 = self@.tokens;
        let ghost cur0 = self@.position;
        let ghost rec0 = self@.record;
        let ghost errs0 = self@.errors;
        let token = match self.pop_token() {
            Some(t) => t,
            None => {
                return Err(ParseError::NoExpression);
            },
        };
        match token.token_type {
            TokenType::Comment => self.parse_expression(),
            TokenType::LParen => {
                let ntok = self.tokens.len();
                self.current_position.push(0);
                proof {
                    assert(self@.position =~= cur0.push(0int));
                    assert(self@.position.drop_last() =~= cur0);
                    assert(self@.position.last() == 0int);
                    assert(nodes_view(Seq::<Node>::empty()) =~= Seq::<SpecNode>::empty());
                }
                let nodes = match self.parse_children_rec(false, Vec::new()) {
                    Ok(ns) => ns,
                    Err(e) => {
                        return Err(e);
                    },
                };
                let ghost fp = self@.position;
                self.current_position.pop();
                let node = Node::Expression(nodes);
                proof {
                    assert(self@.position =~= fp.drop_last());
                    assert(self@.position =~= cur0);
                    assert(node@ is Expression);
                    assert(node@->Expression_0 =~= nodes_view(nodes@));
                    assert(self@.errors.skip(errs0.len() as int) =~= Seq::<Seq<int>>::empty()
                        + self@.errors.skip(errs0.len() as int));
                }
                Ok(node)
            },
            TokenType::RParen => Err(ParseError::UnexpectedRParen(token.end)),
            TokenType::LSquare => {
                let ntok = self.tokens.len();
                self.current_position.push(0);
                proof {
                    assert(self@.position =~= cur0.push(0int));
                    assert(self@.position.drop_last() =~= cur0);
                    assert(self@.position.last() == 0int);
                    assert(nodes_view(Seq::<Node>::empty()) =~= Seq::<SpecNode>::empty());
                }
                let nodes = match self.parse_children_rec(true, Vec::new()) {
                    Ok(ns) => ns,
                    Err(e) => {
                        return Err(e);
                    },
                };
                let ghost fp = self@.position;
                self.current_position.pop();
                let node = Node::List(nodes);
                proof {
                    assert(self@.position =~= fp.drop_last());
                    assert(self@.position =~= cur0);
                    assert(node@ is List);
                    assert(node@->List_0 =~= nodes_view(nodes@));
                    assert(self@.errors.skip(errs0.len() as int) =~= Seq::<Seq<int>>::empty()
                        + self@.errors.skip(errs0.len() as int));
                }
                Ok(node)
            },
            TokenType::RSquare => Err(ParseError::UnexpectedRSquare(token.end)),
            TokenType::StringLiteral => {
                proof {
                    assert(self@.errors.skip(errs0.len() as int) =~= Seq::<Seq<int>>::empty());
                    assert(self@.errors.take(errs0.len() as int) =~= errs0);
                }
                Ok(Node::StringLiteral(token))
            },
            TokenType::NumberLiteral => {
                proof {
                    assert(self@.errors.skip(errs0.len() as int) =~= Seq::<Seq<int>>::empty());
                    assert(self@.errors.take(errs0.len() as int) =~= errs0);
                }
                Ok(Node::NumberLiteral(token))
            },
            TokenType::Word => {
                if crate::strutil::string_is(&token.value, "fn") {
                    let r = self.parse_function(token);
                    proof {
                        if r is Ok {
                            assert(self@.errors.skip(errs0.len() as int)
                                =~= Seq::<Seq<int>>::empty());
                            assert(self@.errors.take(errs0.len() as int) =~= errs0);
                        }
                    }
                    r
                } else if crate::strutil::string_is(&token.value, "true")
                    || crate::strutil::string_is(&token.value, "false") {
                    proof {
                        assert(self@.errors.skip(errs0.len() as int) =~= Seq::<Seq<int>>::empty());
                        assert(self@.errors.take(errs0.len() as int) =~= errs0);
                    }
                    Ok(Node::BooleanLiteral(token))
                } else {
                    proof {
                        assert(self@.errors.skip(errs0.len() as int) =~= Seq::<Seq<int>>::empty());
                        assert(self@.errors.take(errs0.len() as int) =~= errs0);
                    }
                    Ok(Node::Word(token))
                }
            },
            TokenType::Unknown => {
                proof {
                    assert(self@.errors.skip(errs0.len() as int) =~= Seq::<Seq<int>>::empty());
                    assert(self@.errors.take(errs0.len() as int) =~= errs0);
                }
                Ok(Node::Invalid(token))
            },
            TokenType::SingleQuote => Err(ParseError::UnsupportedQuote(token.end)),
        }
    }

    /// Parse children up to the closing bracket, per `spec_parse_children`
    /// with the parent's tree position and next child index taken from the
    /// current position.
    fn parse_children_rec(&mut self, lsq: bool, acc: Vec<Node>) -> (r: Result<
        Vec<Node>,
        ParseError,
    >)
        requires
            old(self)@.position.len() >= 1,
            old(self)@.position.last() + old(self)@.tokens.len() <= usize::MAX,
            old(self)@.position.last() >= 0,
        ensures
            match r {
                Ok(nodes) => {
                    &&& spec_parse_children(
                        old(self)@.tokens,
                        old(self)@.position.drop_last(),
                        old(self)@.position.last(),
                        old(self)@.record,
                        lsq,
                        nodes_view(acc@),
                    ) == Ok::<ParsedSeq, SpecParseError>(
                        ParsedSeq {
                            nodes: nodes_view(nodes@),
                            rest: final(self)@.tokens,
                            errs: final(self)@.errors.skip(old(self)@.errors.len() as int),
                        },
                    )
                    &&& final(self)@.errors.take(old(self)@.errors.len() as int) == old(
                        self,
                    )@.errors
                    &&& final(self)@.position.drop_last() == old(self)@.position.drop_last()
                    &&& final(self)@.position.len() == old(self)@.position.len()
                    &&& final(self)@.record == old(self)@.record
                    &&& final(self)@.tokens.len() < old(self)@.tokens.len()
                    &&& final(self)@.errors.len() >= old(self)@.errors.len()
                    &&& (old(self)@.record == false ==> final(self)@.errors == old(self)@.errors)
                },
                Err(e) => spec_parse_children(
                    old(self)@.tokens,
                    old(self)@.position.drop_last(),
                    old(self)@.position.last(),
                    old(self)@.record,
                    lsq,
                    nodes_view(acc@),
                ) == Err::<ParsedSeq, SpecParseError>(parse_error_view(e)),
            },
        decreases self@.tokens.len(), 2int,
    {
        let ghost ts0 = self@.tokens;
        let ghost base = self@.position.drop_last();
        let ghost j = self@.position.last();
        let ghost rec0 = self@.record;
        let ghost errs0 = self@.errors;
        if self.tokens.is_empty() {
            let p = if acc.len() > 0 {
                proof {
                    assert(nodes_view(acc@).last() == acc@[acc@.len() - 1]@);
                }
                acc[acc.len() - 1].last_char()
            } else {
                TokenPosition { line: 0, col: 0 }
            };
            return if lsq {
                Err(ParseError::UnterminatedList(p))
            } else {
                Err(ParseError::UnterminatedExpression(p))
            };
        }
        let tt = self.tokens[self.tokens.len() - 1].token_type;
        proof {
            assert(ts0[0] == self.tokens@[self.tokens@.len() - 1]);
        }
        if matches!(tt, TokenType::Comment) {
            let _ = self.pop_token();
            return self.parse_children_rec(lsq, acc);
        }
        let closer_hit = if lsq {
            matches!(tt, TokenType::RSquare)
        } else {
            matches!(tt, TokenType::RParen)
        };
        if closer_hit {
            let _ = self.pop_token();
            proof {
                assert(self@.errors.skip(errs0.len() as int) =~= Seq::<Seq<int>>::empty());
                assert(self@.errors.take(errs0.len() as int) =~= errs0);
            }
            return Ok(acc);
        }
        let ghost cur_full = self@.position;
        proof {
            assert(base.push(j) =~= cur_full);
        }
        let child = match self.parse_expression() {
            Ok(n) => n,
            Err(e) => {
                return Err(e);
            },
        };
        let ghost errs1 = self@.errors;
        let ghost d1 = errs1.skip(errs0.len() as int);
        proof {
            crate::node::lemma_node_view_variants(child);
        }
        if self.record && matches!(child, Node::Invalid(_)) {
            let p = copy_path(&self.current_position);
            self.errors.push(p);
            proof {
                assert(self@.errors =~= errs1.push(path_view(p@)));
                assert(path_view(p@) =~= base.push(j));
                assert(here_spec(rec0, child@, base.push(j)) =~= self@.errors.skip(
                    errs1.len() as int,
                ));
            }
        } else {
            proof {
                assert(here_spec(rec0, child@, base.push(j)) =~= self@.errors.skip(
                    errs1.len() as int,
                ));
            }
        }
        let ghost errs2 = self@.errors;
        let ghost here = errs2.skip(errs1.len() as int);
        let l = self.current_position.len();
        let lastv = self.current_position[l - 1];
        self.current_position[l - 1] = lastv + 1;
        proof {
            assert(self@.position =~= base.push(j + 1));
            assert(self@.position.drop_last() =~= base);
            assert(self@.position.last() == j + 1);
        }
        let mut acc2 = acc;
        acc2.push(child);
        proof {
            assert(nodes_view(acc2@) =~= nodes_view(acc@).push(child@));
        }
        let r = self.parse_children_rec(lsq, acc2);
        proof {
            errs1.lemma_split_at(errs0.len() as int);
            assert(errs1 =~= errs0 + d1);
            errs2.lemma_split_at(errs1.len() as int);
            assert(errs2 =~= errs1 + here);
            if r is Ok {
                let d2 = self@.errors.skip(errs2.len() as int);
                self@.errors.lemma_split_at(errs2.len() as int);
                assert(self@.errors =~= errs2 + d2);
                assert(self@.errors =~= errs0 + (d1 + here + d2));
                assert(self@.errors.skip(errs0.len() as int) =~= d1 + here + d2);
                assert(self@.errors.take(errs0.len() as int) =~= errs0);
            }
        }
        r
    }

    /// Parse a `fn` literal after its `fn` word, per `spec_parse_function`.
    /// Recording of `Invalid` positions is off in its interior: a path of
    /// child indices cannot address the inside of a `fn` literal.
    fn parse_function(&mut self, fn_word: Token) -> (r: Result<Node, ParseError>)
        ensures
            match r {
                Ok(node) => {
                    &&& spec_parse_function(old(self)@.tokens, fn_word, old(self)@.position)
                        == Ok::<ParsedExpr, SpecParseError>(
                        ParsedExpr {
                            node: node@,
                            rest: final(self)@.tokens,
                            errs: Seq::empty(),
                        },
                    )
                    &&& final(self)@.errors == old(self)@.errors
                    &&& final(self)@.position == old(self)@.position
                    &&& final(self)@.record == old(self)@.record
                    &&& final(self)@.tokens.len() < old(self)@.tokens.len()
                },
                Err(e) => spec_parse_function(old(self)@.tokens, fn_word, old(self)@.position)
                    == Err::<ParsedExpr, SpecParseError>(parse_error_view(e)),
            },
        decreases self@.tokens.len(), 1int,
    {
        let ghost ts0 = self@.tokens;
        let saved = self.record;
        self.record = false;
        let arguments = match self.parse_expression() {
            Ok(n) => n,
            Err(e) => {
                self.record = saved;
                return Err(e);
            },
        };
        proof {
            crate::node::lemma_node_view_variants(arguments);
        }
        let words = match arguments {
            Node::List(w) => {
                proof {
                    assert(spec_node_of(Node::List(w))->List_0 =~= nodes_view(w@));
                }
                w
            },
            other => {
                self.record = saved;
                return Err(ParseError::InvalidFunctionArguments);
            },
        };
        let ghost ts1 = self@.tokens;
        let ghost cur0 = old(self)@.position;
        let ghost errs0 = old(self)@.errors;
        proof {
            assert(self@.errors.skip(errs0.len() as int) =~= Seq::<Seq<int>>::empty());
        }
        let n = words.len();
        let mut i: usize = 0;
        while i < n
            invariant
                i <= n,
                n == words@.len(),
                forall|m: int| 0 <= m < i ==> nodes_view(words@)[m] is Word,
                ts0 == old(self)@.tokens,
                cur0 == old(self)@.position,
                errs0 == old(self)@.errors,
                saved == old(self)@.record,
                self@.tokens == ts1,
                self@.errors == errs0,
                self@.position == cur0,
                self@.record == false,
                ts1.len() < ts0.len(),
                spec_parse_expression(ts0, cur0, false) == Ok::<ParsedExpr, SpecParseError>(
                    (ParsedExpr {
                        node: SpecNode::List(nodes_view(words@)),
                        rest: ts1,
                        errs: Seq::empty(),
                    }),
                ),
            decreases n - i,
        {
            proof {
                crate::node::lemma_node_view_variants(words[i as int]);
                assert(nodes_view(words@)[i as int] == words@[i as int]@);
            }
            if !matches!(words[i], Node::Word(_)) {
                self.record = saved;
                return Err(ParseError::ArgumentsNotWords);
            }
            i = i + 1;
        }
        let body = match self.parse_expression() {
            Ok(n) => n,
            Err(e) => {
                self.record = saved;
                return Err(e);
            },
        };
        proof {
            crate::node::lemma_node_view_variants(body);
        }
        let body2 = if matches!(body, Node::Expression(_)) {
            proof {
                assert(body@ is Expression);
            }
            body
        } else {
            proof {
                assert(!(body@ is Expression));
            }
            let ghost bv = body@;
            let mut ch: Vec<Node> = Vec::new();
            ch.push(body);
            let wrapped = Node::Expression(ch);
            proof {
                assert(wrapped@->Expression_0 =~= seq![bv]);
            }
            wrapped
        };
        self.record = saved;
        let node = Node::FunctionLiteral { token: fn_word, arguments: words, body: Box::new(
            body2,
        ) };
        proof {
            assert(node@ is FunctionLiteral);
            assert(node@->FunctionLiteral_arguments =~= nodes_view(words@));
        }
        Ok(node)
    }

    /// Parse top-level expressions into the synthetic root's child list,
    /// per `spec_parse_top`.
    fn parse_top(&mut self, acc: Vec<Node>) -> (r: Result<Vec<Node>, ParseError>)
        requires
            old(self)@.position.len() == 1,
            old(self)@.record == true,
            old(self)@.position.last() + old(self)@.tokens.len() <= usize::MAX,
            old(self)@.position.last() >= 0,
        ensures
            match r {
                Ok(nodes) => {
                    &&& spec_parse_top(
                        old(self)@.tokens,
                        old(self)@.position.last(),
                        nodes_view(acc@),
                    ) == Ok::<ParsedTop, SpecParseError>(
                        ParsedTop {
                            root: SpecNode::Expression(nodes_view(nodes@)),
                            errs: final(self)@.errors.skip(old(self)@.errors.len() as int),
                        },
                    )
                    &&& final(self)@.errors.take(old(self)@.errors.len() as int) == old(
                        self,
                    )@.errors
                    &&& final(self)@.position.len() == 1
                    &&& final(self)@.record == true
                    &&& final(self)@.tokens.len() == 0
                    &&& final(self)@.errors.len() >= old(self)@.errors.len()
                },
                Err(e) => spec_parse_top(
                    old(self)@.tokens,
                    old(self)@.position.last(),
                    nodes_view(acc@),
                ) == Err::<ParsedTop, SpecParseError>(parse_error_view(e)),
            },
        decreases self@.tokens.len(), 3int,
    {
        let ghost ts0 = self@.tokens;
        let ghost j = self@.position.last();
        let ghost errs0 = self@.errors;
        if self.tokens.is_empty() {
            proof {
                assert(self@.errors.skip(errs0.len() as int) =~= Seq::<Seq<int>>::empty());
                assert(self@.errors.take(errs0.len() as int) =~= errs0);
            }
            return Ok(acc);
        }
        let tt = self.tokens[self.tokens.len() - 1].token_type;
        proof {
            assert(ts0[0] == self.tokens@[self.tokens@.len() - 1]);
        }
        if matches!(tt, TokenType::Comment) {
            let _ = self.pop_token();
            return self.parse_top(acc);
        }
        proof {
            assert(self@.position.drop_last() =~= Seq::<int>::empty());
            assert(self@.position =~= seq![j]);
            assert(Seq::<int>::empty().push(j) =~= seq![j]);
        }
        let child = match self.parse_expression() {
            Ok(n) => n,
            Err(e) => {
                return Err(e);
            },
        };
        let ghost errs1 = self@.errors;
        let ghost d1 = errs1.skip(errs0.len() as int);
        proof {
            crate::node::lemma_node_view_variants(child);
        }
        if self.record && matches!(child, Node::Invalid(_)) {
            let p = copy_path(&self.current_position);
            self.errors.push(p);
            proof {
                assert(self@.errors =~= errs1.push(path_view(p@)));
                assert(path_view(p@) =~= seq![j]);
                assert(here_spec(true, child@, seq![j]) =~= self@.errors.skip(errs1.len() as int));
            }
        } else {
            proof {
                assert(here_spec(true, child@, seq![j]) =~= self@.errors.skip(errs1.len() as int));
            }
        }
        let ghost errs2 = self@.errors;
        let ghost here = errs2.skip(errs1.len() as int);
        let l = self.current_position.len();
        let lastv = self.current_position[l - 1];
        self.current_position[l - 1] = lastv + 1;
        proof {
            assert(self@.position =~= seq![j + 1]);
            assert(self@.position.last() == j + 1);
            assert(self@.position.len() == 1);
        }
        let mut acc2 = acc;
        acc2.push(child);
        proof {
            assert(nodes_view(acc2@) =~= nodes_view(acc@).push(child@));
        }
        let r = self.parse_top(acc2);
        proof {
            errs1.lemma_split_at(errs0.len() as int);
            assert(errs1 =~= errs0 + d1);
            errs2.lemma_split_at(errs1.len() as int);
            assert(errs2 =~= errs1 + here);
            if r is Ok {
                let d2 = self@.errors.skip(errs2.len() as int);
                self@.errors.lemma_split_at(errs2.len() as int);
                assert(self@.errors =~= errs2 + d2);
                assert(self@.errors =~= errs0 + (d1 + here + d2));
                assert(self@.errors.skip(errs0.len() as int) =~= d1 + here + d2);
                assert(self@.errors.take(errs0.len() as int) =~= errs0);
            }
        }
        r
    }

    /// Parse the whole program: zero or more top-level expressions under a
    /// synthetic root `Expression`, leading comments skipped, `Invalid`
    /// node positions recorded for diagnostics.
    pub fn parse(&mut self) -> (r: Result<Node, ParseError>)
        requires
            old(self)@.position.len() == 1,
            old(self)@.record == true,
            old(self)@.position.last() + old(self)@.tokens.len() <= usize::MAX,
            old(self)@.position.last() >= 0,
        ensures
            match r {
                Ok(root) => {
                    &&& spec_parse_top(old(self)@.tokens, old(self)@.position.last(), Seq::empty())
                        matches Ok(pt) && root@ == pt.root && final(self)@.errors == old(
                        self,
                    )@.errors + pt.errs
                    &&& final(self)@.tokens.len() == 0
                    &&& final(self)@.position.len() == 1
                    &&& final(self)@.record == true
                },
                Err(e) => spec_parse_top(old(self)@.tokens, old(self)@.position.last(), Seq::empty())
                    == Err::<ParsedTop, SpecParseError>(parse_error_view(e)),
            },
    {
        let ghost errs0 = self@.errors;
        let nodes = match self.parse_top(Vec::new()) {
            Ok(ns) => ns,
            Err(e) => {
                proof {
                    assert(nodes_view(Seq::<Node>::empty()) =~= Seq::<SpecNode>::empty());
                }
                return Err(e);
            },
        };
        let root = Node::Expression(nodes);
        proof {
            assert(nodes_view(Seq::<Node>::empty()) =~= Seq::<SpecNode>::empty());
            assert(root@->Expression_0 =~= nodes_view(nodes@));
            self@.errors.lemma_split_at(errs0.len() as int);
            assert(self@.errors =~= errs0 + self@.errors.skip(errs0.len() as int));
        }
        Ok(root)
    }
}


/// A path of at least one index descends `Expression` and `List` nodes
/// alike.
proof fn lemma_node_at_bracket(v: Seq<SpecNode>, s: Seq<int>)
    requires
        s.len() >= 1,
    ensures
        spec_node_at(SpecNode::Expression(v), s) == spec_node_at(SpecNode::List(v), s),
{
}

/// One descent step from a bracketed node.
proof fn lemma_node_at_step(v: Seq<SpecNode>, j: int, s: Seq<int>)
    requires
        0 <= j < v.len(),
    ensures
        spec_node_at(SpecNode::Expression(v), seq![j] + s) == spec_node_at(v[j], s),
{
    assert((seq![j] + s)[0] == j);
    assert((seq![j] + s).drop_first() =~= s);
}

/// Whether the path `s` leads from `node` to an `Invalid` node.
pub open spec fn resolves_to_invalid(node: SpecNode, s: Seq<int>) -> bool {
    &&& spec_node_at(node, s) is Ok
    &&& spec_node_at(node, s)->Ok_0 is Invalid
}

/// A recorded position of one parse, relative to the position of the
/// node it was recorded under: a non-empty suffix that resolves inside
/// that node to an `Invalid` node.
pub open spec fn err_resolves_in(node: SpecNode, cur: Seq<int>, e: Seq<int>) -> bool {
    exists|s: Seq<int>|
        e == cur + s && s.len() >= 1 && #[trigger] resolves_to_invalid(node, s)
}

/// Every position a successful expression parse records resolves inside
/// the returned node.
proof fn lemma_expr_errors_resolve(ts: Seq<Token>, cur: Seq<int>, rec: bool)
    ensures
        spec_parse_expression(ts, cur, rec) matches Ok(pe) ==> forall|k: int|
            0 <= k < pe.errs.len() ==> err_resolves_in(pe.node, cur, #[trigger] pe.errs[k]),
    decreases ts.len(), 0int,
{
    if ts.len() == 0 {
        return ;
    }
    let t = ts[0];
    let rest0 = ts.drop_first();
    match t.token_type {
        TokenType::Comment => {
            lemma_expr_errors_resolve(rest0, cur, rec);
        },
        TokenType::LParen => {
            lemma_children_errors_resolve(rest0, cur, 0, rec, false, Seq::empty());
            match spec_parse_children(rest0, cur, 0, rec, false, Seq::empty()) {
                Err(_) => {},
                Ok(ps) => {
                    let pe = spec_parse_expression(ts, cur, rec)->Ok_0;
                    assert forall|k: int| 0 <= k < pe.errs.len() implies err_resolves_in(
                        pe.node,
                        cur,
                        #[trigger] pe.errs[k],
                    ) by {
                        assert(err_resolves_in(SpecNode::Expression(ps.nodes), cur, ps.errs[k]));
                    }
                },
            }
        },
        TokenType::LSquare => {
            lemma_children_errors_resolve(rest0, cur, 0, rec, true, Seq::empty());
            match spec_parse_children(rest0, cur, 0, rec, true, Seq::empty()) {
                Err(_) => {},
                Ok(ps) => {
                    let pe = spec_parse_expression(ts, cur, rec)->Ok_0;
                    assert forall|k: int| 0 <= k < pe.errs.len() implies err_resolves_in(
                        pe.node,
                        cur,
                        #[trigger] pe.errs[k],
                    ) by {
                        assert(err_resolves_in(SpecNode::Expression(ps.nodes), cur, ps.errs[k]));
                        let s = choose|s: Seq<int>|
                            ps.errs[k] == cur + s && s.len() >= 1 && #[trigger] resolves_to_invalid(
                                SpecNode::Expression(ps.nodes),
                                s,
                            );
                        lemma_node_at_bracket(ps.nodes, s);
                        assert(resolves_to_invalid(SpecNode::List(ps.nodes), s));
                    }
                },
            }
        },
        TokenType::Word => {
            if t.value@ == "fn"@ {
                assert(spec_parse_function(rest0, t, cur) matches Ok(pe2) ==> pe2.errs.len()
                    == 0);
            }
        },
        _ => {},
    }
}

/// The children a child-list parse returns extend the ones it was
/// handed.
proof fn lemma_children_prefix(
    ts: Seq<Token>,
    base: Seq<int>,
    j: int,
    rec: bool,
    lsq: bool,
    acc: Seq<SpecNode>,
)
    ensures
        spec_parse_children(ts, base, j, rec, lsq, acc) matches Ok(ps) ==> ps.nodes.len()
            >= acc.len() && ps.nodes.take(acc.len() as int) == acc,
    decreases ts.len(), 2int,
{
    if ts.len() == 0 {
    } else if ts[0].token_type is Comment {
        lemma_children_prefix(ts.drop_first(), base, j, rec, lsq, acc);
    } else if (lsq && ts[0].token_type is RSquare) || (!lsq && ts[0].token_type is RParen) {
        assert(acc.take(acc.len() as int) =~= acc);
    } else {
        match spec_parse_expression(ts, base.push(j), rec) {
            Err(_) => {},
            Ok(pe) => {
                if pe.rest.len() < ts.len() {
                    lemma_children_prefix(pe.rest, base, j + 1, rec, lsq, acc.push(pe.node));
                    match spec_parse_children(pe.rest, base, j + 1, rec, lsq, acc.push(pe.node)) {
                        Err(_) => {},
                        Ok(ps) => {
                            assert(ps.nodes.take(acc.len() as int + 1) == acc.push(pe.node));
                            assert(ps.nodes.take(acc.len() as int) =~= acc) by {
                                assert forall|m: int| 0 <= m < acc.len() implies ps.nodes.take(
                                    acc.len() as int,
                                )[m] == acc[m] by {
                                    assert(ps.nodes.take(acc.len() as int + 1)[m] == acc.push(pe.node)[m]);
                                }
                            }
                        },
                    }
                }
            },
        }
    }
}

/// Every position a successful child-list parse records resolves inside
/// the bracketed node being built, when the next child index matches the
/// children already gathered.
proof fn lemma_children_errors_resolve(
    ts: Seq<Token>,
    base: Seq<int>,
    j: int,
    rec: bool,
    lsq: bool,
    acc: Seq<SpecNode>,
)
    requires
        j == acc.len(),
    ensures
        spec_parse_children(ts, base, j, rec, lsq, acc) matches Ok(ps) ==> forall|k: int|
            0 <= k < ps.errs.len() ==> err_resolves_in(
                SpecNode::Expression(ps.nodes),
                base,
                #[trigger] ps.errs[k],
            ),
    decreases ts.len(), 2int,
{
    if ts.len() == 0 {
    } else if ts[0].token_type is Comment {
        lemma_children_errors_resolve(ts.drop_first(), base, j, rec, lsq, acc);
    } else if (lsq && ts[0].token_type is RSquare) || (!lsq && ts[0].token_type is RParen) {
    } else {
        match spec_parse_expression(ts, base.push(j), rec) {
            Err(_) => {},
            Ok(pe) => {
                if pe.rest.len() < ts.len() {
                    lemma_expr_errors_resolve(ts, base.push(j), rec);
                    lemma_children_prefix(pe.rest, base, j + 1, rec, lsq, acc.push(pe.node));
                    lemma_children_errors_resolve(
                        pe.rest,
                        base,
                        j + 1,
                        rec,
                        lsq,
                        acc.push(pe.node),
                    );
                    match spec_parse_children(pe.rest, base, j + 1, rec, lsq, acc.push(pe.node)) {
                        Err(_) => {},
                        Ok(ps) => {
                            let here = here_spec(rec, pe.node, base.push(j));
                            let acc2 = acc.push(pe.node);
                            assert(ps.nodes[j] == pe.node) by {
                                assert(ps.nodes.len() >= acc2.len());
                                assert(ps.nodes.take(acc2.len() as int) == acc2);
                                assert(ps.nodes.take(acc2.len() as int)[j] == acc2[j]);
                                assert(acc2[j] == pe.node);
                            }
                            let all = pe.errs + here + ps.errs;
                            assert forall|k: int| 0 <= k < all.len() implies err_resolves_in(
                                SpecNode::Expression(ps.nodes),
                                base,
                                #[trigger] all[k],
                            ) by {
                                if k < pe.errs.len() {
                                    assert(all[k] == pe.errs[k]);
                                    assert(err_resolves_in(pe.node, base.push(j), pe.errs[k]));
                                    let s = choose|s: Seq<int>|
                                        pe.errs[k] == base.push(j) + s && s.len() >= 1
                                            && #[trigger] resolves_to_invalid(pe.node, s);
                                    let s2 = seq![j] + s;
                                    assert(base.push(j) + s =~= base + s2);
                                    lemma_node_at_step(ps.nodes, j, s);
                                    assert(spec_node_at(SpecNode::Expression(ps.nodes), s2)
                                        == spec_node_at(pe.node, s));
                                    assert(resolves_to_invalid(
                                        SpecNode::Expression(ps.nodes),
                                        s2,
                                    ));
                                    assert(all[k] == base + s2 && s2.len() >= 1);
                                } else if k < pe.errs.len() + here.len() {
                                    assert(rec && pe.node is Invalid);
                                    assert(all[k] == base.push(j));
                                    let s2 = seq![j];
                                    assert(base.push(j) =~= base + s2);
                                    lemma_node_at_step(ps.nodes, j, Seq::empty());
                                    assert(seq![j] + Seq::<int>::empty() =~= s2);
                                    assert(spec_node_at(SpecNode::Expression(ps.nodes), s2)
                                        == Ok::<SpecNode, crate::node::NodeAtError>(pe.node));
                                    assert(resolves_to_invalid(
                                        SpecNode::Expression(ps.nodes),
                                        s2,
                                    ));
                                    assert(all[k] == base + s2 && s2.len() >= 1);
                                } else {
                                    assert(all[k] == ps.errs[k - pe.errs.len() - here.len()]);
                                }
                            }
                        },
                    }
                }
            },
        }
    }
}

/// The children a program parse returns extend the ones it was handed.
proof fn lemma_top_prefix(ts: Seq<Token>, j: int, acc: Seq<SpecNode>)
    ensures
        spec_parse_top(ts, j, acc) matches Ok(pt) ==> pt.root is Expression
            && pt.root->Expression_0.len() >= acc.len() && pt.root->Expression_0.take(
            acc.len() as int,
        ) == acc,
    decreases ts.len(), 3int,
{
    if ts.len() == 0 {
        assert(acc.take(acc.len() as int) =~= acc);
    } else if ts[0].token_type is Comment {
        lemma_top_prefix(ts.drop_first(), j, acc);
    } else {
        match spec_parse_expression(ts, seq![j], true) {
            Err(_) => {},
            Ok(pe) => {
                if pe.rest.len() < ts.len() {
                    lemma_top_prefix(pe.rest, j + 1, acc.push(pe.node));
                    match spec_parse_top(pe.rest, j + 1, acc.push(pe.node)) {
                        Err(_) => {},
                        Ok(pt) => {
                            assert(pt.root->Expression_0.take(acc.len() as int + 1) == acc.push(pe.node));
                            assert(pt.root->Expression_0.take(acc.len() as int) =~= acc) by {
                                assert forall|m: int|
                                    0 <= m < acc.len() implies pt.root->Expression_0.take(
                                    acc.len() as int,
                                )[m] == acc[m] by {
                                    assert(pt.root->Expression_0.take(acc.len() as int + 1)[m]
                                        == acc.push(pe.node)[m]);
                                }
                            }
                        },
                    }
                }
            },
        }
    }
}

/// Law: every error position a successful parse records resolves,
/// through the tree-position addressing, to the `Invalid` node it was
/// recorded for.
pub proof fn lemma_parse_errors_resolve(ts: Seq<Token>, j: int, acc: Seq<SpecNode>)
    requires
        j == acc.len(),
    ensures
        spec_parse_top(ts, j, acc) matches Ok(pt) ==> forall|k: int|
            0 <= k < pt.errs.len() ==> #[trigger] resolves_to_invalid(pt.root, pt.errs[k]),
    decreases ts.len(), 3int,
{
    if ts.len() == 0 {
    } else if ts[0].token_type is Comment {
        lemma_parse_errors_resolve(ts.drop_first(), j, acc);
    } else {
        match spec_parse_expression(ts, seq![j], true) {
            Err(_) => {},
            Ok(pe) => {
                if pe.rest.len() < ts.len() {
                    lemma_expr_errors_resolve(ts, seq![j], true);
                    lemma_top_prefix(pe.rest, j + 1, acc.push(pe.node));
                    lemma_parse_errors_resolve(pe.rest, j + 1, acc.push(pe.node));
                    match spec_parse_top(pe.rest, j + 1, acc.push(pe.node)) {
                        Err(_) => {},
                        Ok(pt) => {
                            let v = pt.root->Expression_0;
                            let acc2 = acc.push(pe.node);
                            assert(v[j] == pe.node) by {
                                assert(v.len() >= acc2.len());
                                assert(v.take(acc2.len() as int) == acc2);
                                assert(v.take(acc2.len() as int)[j] == acc2[j]);
                                assert(acc2[j] == pe.node);
                            }
                            let here = here_spec(true, pe.node, seq![j]);
                            let all = pe.errs + here + pt.errs;
                            assert forall|k: int|
                                0 <= k < all.len() implies #[trigger] resolves_to_invalid(
                                pt.root,
                                all[k],
                            ) by {
                                if k < pe.errs.len() {
                                    assert(all[k] == pe.errs[k]);
                                    assert(err_resolves_in(pe.node, seq![j], pe.errs[k]));
                                    let s = choose|s: Seq<int>|
                                        pe.errs[k] == seq![j] + s && s.len() >= 1
                                            && #[trigger] resolves_to_invalid(pe.node, s);
                                    lemma_node_at_step(v, j, s);
                                    assert(pt.root == SpecNode::Expression(v));
                                    assert(spec_node_at(pt.root, seq![j] + s) == spec_node_at(
                                        pe.node,
                                        s,
                                    ));
                                    assert(all[k] == seq![j] + s);
                                    assert(resolves_to_invalid(pt.root, all[k]));
                                } else if k < pe.errs.len() + here.len() {
                                    assert(pe.node is Invalid);
                                    assert(all[k] == seq![j]);
                                    lemma_node_at_step(v, j, Seq::empty());
                                    assert(seq![j] + Seq::<int>::empty() =~= seq![j]);
                                    assert(pt.root == SpecNode::Expression(v));
                                    assert(spec_node_at(pt.root, seq![j]) == Ok::<
                                        SpecNode,
                                        crate::node::NodeAtError,
                                    >(pe.node));
                                    assert(resolves_to_invalid(pt.root, all[k]));
                                } else {
                                    assert(all[k] == pt.errs[k - pe.errs.len() - here.len()]);
                                }
                            }
                        },
                    }
                }
            },
        }
    }
}

} // verus!
