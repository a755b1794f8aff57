//! The syntax tree: `Node`, its mathematical mirror `SpecNode`, and the
//! tree-position addressing used to re-locate nodes for diagnostics.

use vstd::prelude::*;

use crate::lexer::{SpecPos, SpecToken, Token, TokenPosition};

verus! {

/// One node of the syntax tree.
#[derive(Debug)]
pub enum Node {
    /// An identifier or operator reference.
    Word(Token),
    /// A syntactically unrecognized token, preserved in place.
    Invalid(Token),
    /// A `( ... )` form.
    Expression(Vec<Node>),
    /// A `[ ... ]` literal list form.
    List(Vec<Node>),
    /// A string literal; the lexeme keeps its surrounding quotes.
    StringLiteral(Token),
    /// A number literal, kept verbatim until evaluation.
    NumberLiteral(Token),
    /// `true` or `false`.
    BooleanLiteral(Token),
    /// A `fn` form: parameter words and a body, the body always an
    /// `Expression`.
    FunctionLiteral { token: Token, arguments: Vec<Node>, body: Box<Node> },
}

/// The mathematical image of a `Node`.
pub ghost enum SpecNode {
    Word(SpecToken),
    Invalid(SpecToken),
    Expression(Seq<SpecNode>),
    List(Seq<SpecNode>),
    StringLiteral(SpecToken),
    NumberLiteral(SpecToken),
    BooleanLiteral(SpecToken),
    FunctionLiteral { token: SpecToken, arguments: Seq<SpecNode>, body: Box<SpecNode> },
}

/// The mathematical image of a node.
pub open spec fn spec_node_of(n: Node) -> SpecNode
    decreases n,
{
    match n {
        Node::Word(t) => SpecNode::Word(t@),
        Node::Invalid(t) => SpecNode::Invalid(t@),
        Node::Expression(v) => SpecNode::Expression(
            Seq::new(
                v@.len(),
                |i: int| if 0 <= i < v@.len() { spec_node_of(v@[i]) } else { arbitrary() },
            ),
        ),
        Node::List(v) => SpecNode::List(
            Seq::new(
                v@.len(),
                |i: int| if 0 <= i < v@.len() { spec_node_of(v@[i]) } else { arbitrary() },
            ),
        ),
        Node::StringLiteral(t) => SpecNode::StringLiteral(t@),
        Node::NumberLiteral(t) => SpecNode::NumberLiteral(t@),
        Node::BooleanLiteral(t) => SpecNode::BooleanLiteral(t@),
        Node::FunctionLiteral { token, arguments, body } => SpecNode::FunctionLiteral {
            token: token@,
            arguments: Seq::new(
                arguments@.len(),
                |i: int|
                    if 0 <= i < arguments@.len() {
                        spec_node_of(arguments@[i])
                    } else {
                        arbitrary()
                    },
            ),
            body: Box::new(spec_node_of(*body)),
        },
    }
}

impl View for Node {
    type V = SpecNode;

    open spec fn view(&self) -> SpecNode {
        spec_node_of(*self)
    }
}

/// A node and its image are always of the same variant.
pub proof fn lemma_node_view_variants(n: Node)
    ensures
        n@ is Word <==> n is Word,
        n@ is Invalid <==> n is Invalid,
        n@ is Expression <==> n is Expression,
        n@ is List <==> n is List,
        n@ is StringLiteral <==> n is StringLiteral,
        n@ is NumberLiteral <==> n is NumberLiteral,
        n@ is BooleanLiteral <==> n is BooleanLiteral,
        n@ is FunctionLiteral <==> n is FunctionLiteral,
{
    match n {
        Node::Word(_) => {},
        Node::Invalid(_) => {},
        Node::Expression(_) => {},
        Node::List(_) => {},
        Node::StringLiteral(_) => {},
        Node::NumberLiteral(_) => {},
        Node::BooleanLiteral(_) => {},
        Node::FunctionLiteral { .. } => {},
    }
}

/// The image of a node sequence.
pub open spec fn nodes_view(v: Seq<Node>) -> Seq<SpecNode> {
    v.map_values(|n: Node| n@)
}

/// A position as it stands in specifications.
pub open spec fn pos_view(p: TokenPosition) -> SpecPos {
    SpecPos { line: p.line as int, col: p.col as int }
}

/// The name of a node's kind, as reported to diagnostics.
pub open spec fn spec_type_of(n: SpecNode) -> Seq<char> {
    match n {
        SpecNode::Word(_) => "word"@,
        SpecNode::Invalid(_) => "invalid"@,
        SpecNode::Expression(_) => "expression"@,
        SpecNode::List(_) => "list"@,
        SpecNode::StringLiteral(_) => "string"@,
        SpecNode::NumberLiteral(_) => "number"@,
        SpecNode::BooleanLiteral(_) => "boolean"@,
        SpecNode::FunctionLiteral { .. } => "function"@,
    }
}

/// The position of the first code point under a node; fixed fallback
/// positions stand in for empty sequences.
pub open spec fn spec_first_char(n: SpecNode) -> SpecPos
    decreases n,
{
    match n {
        SpecNode::Word(t) => t.start,
        SpecNode::Invalid(t) => t.start,
        SpecNode::StringLiteral(t) => t.start,
        SpecNode::NumberLiteral(t) => t.start,
        SpecNode::BooleanLiteral(t) => t.start,
        SpecNode::Expression(v) => if v.len() > 0 {
            spec_first_char(v[0])
        } else {
            SpecPos { line: 64, col: 64 }
        },
        SpecNode::List(v) => if v.len() > 0 {
            spec_first_char(v[0])
        } else {
            SpecPos { line: 64, col: 64 }
        },
        SpecNode::FunctionLiteral { body, .. } => spec_first_char(*body),
    }
}

/// The position of the last code point under a node; fixed fallback
/// positions stand in for empty sequences.
pub open spec fn spec_last_char(n: SpecNode) -> SpecPos
    decreases n,
{
    match n {
        SpecNode::Word(t) => t.end,
        SpecNode::Invalid(t) => t.end,
        SpecNode::StringLiteral(t) => t.end,
        SpecNode::NumberLiteral(t) => t.end,
        SpecNode::BooleanLiteral(t) => t.end,
        SpecNode::Expression(v) => if v.len() > 0 {
            spec_last_char(v[v.len() - 1])
        } else {
            SpecPos { line: 10, col: 0 }
        },
        SpecNode::List(v) => if v.len() > 0 {
            spec_last_char(v[v.len() - 1])
        } else {
            SpecPos { line: 10, col: 0 }
        },
        SpecNode::FunctionLiteral { body, .. } => spec_last_char(*body),
    }
}

/// Failure of `Node::node_at`.
#[derive(Clone, Copy, Debug, PartialEq, Eq, Structural)]
pub enum NodeAtError {
    /// The path indexes past the end of a child list.
    InvalidIndex,
    /// The path descends into a node that has no addressable children.
    NotIndexable,
}

/// Resolve a path of child indices from `n`: only `Expression` and `List`
/// nodes have addressable children.
pub open spec fn spec_node_at(n: SpecNode, path: Seq<int>) -> Result<SpecNode, NodeAtError>
    decreases path.len(),
{
    if path.len() == 0 {
        Ok(n)
    } else {
        match n {
            SpecNode::Expression(v) => if 0 <= path[0] < v.len() {
                spec_node_at(v[path[0]], path.drop_first())
            } else {
                Err(NodeAtError::InvalidIndex)
            },
            SpecNode::List(v) => if 0 <= path[0] < v.len() {
                spec_node_at(v[path[0]], path.drop_first())
            } else {
                Err(NodeAtError::InvalidIndex)
            },
            _ => Err(NodeAtError::NotIndexable),
        }
    }
}

/// A tree position: a path of child indices from the root.
pub type ASTPosition = Vec<usize>;

/// The image of a tree position.
pub open spec fn path_view(p: Seq<usize>) -> Seq<int> {
    p.map_values(|x: usize| x as int)
}

/// The image of a list of tree positions.
pub open spec fn paths_view(ps: Seq<ASTPosition>) -> Seq<Seq<int>> {
    ps.map_values(|p: ASTPosition| path_view(p@))
}

/// Whether two tokens carry the same lexeme, kind and positions.
fn tokens_equal(a: &Token, b: &Token) -> (r: bool)
    ensures
        r == (a@ == b@),
{
    let r = crate::strutil::str_eq_str(a.value.as_str(), b.value.as_str()) && a.token_type
        == b.token_type && a.start == b.start && a.end == b.end;
    proof {
        if r {
            assert(a@ == b@);
        }
    }
    r
}

/// Element-wise structural equality of two node lists.
fn nodes_equal(x: &Vec<Node>, y: &Vec<Node>) -> (r: bool)
    ensures
        r == (x@.len() == y@.len() && (forall|i: int|
            0 <= i < x@.len() ==> #[trigger] spec_node_of(x@[i]) == spec_node_of(y@[i]))),
    decreases x, 0int,
{
    let n = x.len();
    if n != y.len() {
        return false;
    }
    let mut i: usize = 0;
    while i < n
        invariant
            i <= n,
            n == x@.len(),
            n == y@.len(),
            forall|m: int|
                0 <= m < i ==> #[trigger] spec_node_of(x@[m]) == spec_node_of(y@[m]),
        decreases n - i,
    {
        if !x[i].equals(&y[i]) {
            return false;
        }
        i = i + 1;
    }
    true
}

/// Equal child lists make equal nodes, and unequal ones unequal, for the
/// two bracketed node kinds.
proof fn lemma_node_seq_eq(a: Node, b: Node, x: Seq<Node>, y: Seq<Node>, r: bool)
    requires
        (a is Expression && b is Expression && a->Expression_0@ == x && b->Expression_0@ == y) || (
        a is List && b is List && a->List_0@ == x && b->List_0@ == y),
        r == (x.len() == y.len() && (forall|i: int|
            0 <= i < x.len() ==> #[trigger] spec_node_of(x[i]) == spec_node_of(y[i]))),
    ensures
        r == (a@ == b@),
{
    let av = if a is Expression {
        a@->Expression_0
    } else {
        a@->List_0
    };
    let bv = if b is Expression {
        b@->Expression_0
    } else {
        b@->List_0
    };
    if r {
        assert forall|i: int| 0 <= i < av.len() implies av[i] == bv[i] by {
            assert(av[i] == spec_node_of(x[i]));
            assert(bv[i] == spec_node_of(y[i]));
        }
        assert(av =~= bv);
    } else {
        if a@ == b@ {
            assert(av.len() == x.len());
            assert(bv.len() == y.len());
            if x.len() == y.len() {
                assert forall|i: int| 0 <= i < x.len() implies #[trigger] spec_node_of(x[i])
                    == spec_node_of(y[i]) by {
                    assert(av[i] == spec_node_of(x[i]));
                    assert(bv[i] == spec_node_of(y[i]));
                }
            }
            assert(false);
        }
    }
}

/// A deep copy of a node list, element for element.
fn duplicate_nodes(v: &Vec<Node>) -> (r: Vec<Node>)
    ensures
        r@.len() == v@.len(),
        forall|i: int| 0 <= i < v@.len() ==> #[trigger] spec_node_of(r@[i]) == spec_node_of(
            v@[i],
        ),
    decreases v,
{
    let mut out: Vec<Node> = Vec::new();
    let n = v.len();
    let mut i: usize = 0;
    while i < n
        invariant
            i <= n,
            n == v@.len(),
            out@.len() == i,
            forall|m: int| 0 <= m < i ==> #[trigger] spec_node_of(out@[m]) == spec_node_of(
                v@[m],
            ),
        decreases n - i,
    {
        out.push(v[i].duplicate());
        i = i + 1;
    }
    out
}

impl Node {
    /// The name of this node's kind.
    pub fn type_of(&self) -> (r: &'static str)
        ensures
            r@ == spec_type_of(self@),
    {
        match self {
            Node::Word(_) => "word",
            Node::Invalid(_) => "invalid",
            Node::Expression(_) => "expression",
            Node::List(_) => "list",
            Node::StringLiteral(_) => "string",
            Node::NumberLiteral(_) => "number",
            Node::BooleanLiteral(_) => "boolean",
            Node::FunctionLiteral { .. } => "function",
        }
    }

    /// Walk `position` down from this node, per `spec_node_at`.
    pub fn node_at(&self, position: &ASTPosition) -> (r: Result<&Node, NodeAtError>)
        ensures
            match r {
                Ok(m) => spec_node_at(self@, path_view(position@)) == Ok::<SpecNode, NodeAtError>(
                    m@,
                ),
                Err(e) => spec_node_at(self@, path_view(position@)) == Err::<SpecNode, NodeAtError>(
                    e,
                ),
            },
    {
        let mut node = self;
        let len = position.len();
        let mut i: usize = 0;
        proof {
            assert(path_view(position@).skip(0) =~= path_view(position@));
        }
        while i < len
            invariant
                i <= len,
                len == position@.len(),
                spec_node_at(self@, path_view(position@)) == spec_node_at(
                    node@,
                    path_view(position@).skip(i as int),
                ),
            decreases len - i,
        {
            let ghost pre = path_view(position@).skip(i as int);
            proof {
                assert(pre[0] == position@[i as int] as int);
                assert(pre.drop_first() =~= path_view(position@).skip(i as int + 1));
            }
            match node {
                Node::Expression(vec) => {
                    if position[i] < vec.len() {
                        proof {
                            assert(node@ is Expression);
                            assert(node@->Expression_0[pre[0]] == vec@[position@[i as int] as int]@);
                        }
                        node = &vec[position[i]];
                    } else {
                        return Err(NodeAtError::InvalidIndex);
                    }
                },
                Node::List(vec) => {
                    if position[i] < vec.len() {
                        proof {
                            assert(node@ is List);
                            assert(node@->List_0[pre[0]] == vec@[position@[i as int] as int]@);
                        }
                        node = &vec[position[i]];
                    } else {
                        return Err(NodeAtError::InvalidIndex);
                    }
                },
                _ => {
                    return Err(NodeAtError::NotIndexable);
                },
            }
            i = i + 1;
        }
        proof {
            assert(path_view(position@).skip(len as int) =~= Seq::<int>::empty());
        }
        Ok(node)
    }

    /// Structural equality with `other`: the same tree with the same
    /// tokens, lexemes and positions included.
    pub fn equals(&self, other: &Node) -> (r: bool)
        ensures
            r == (self@ == other@),
        decreases self, 1int,
    {
        proof {
            lemma_node_view_variants(*self);
            lemma_node_view_variants(*other);
        }
        match (self, other) {
            (Node::Word(a), Node::Word(b)) => tokens_equal(a, b),
            (Node::Invalid(a), Node::Invalid(b)) => tokens_equal(a, b),
            (Node::StringLiteral(a), Node::StringLiteral(b)) => tokens_equal(a, b),
            (Node::NumberLiteral(a), Node::NumberLiteral(b)) => tokens_equal(a, b),
            (Node::BooleanLiteral(a), Node::BooleanLiteral(b)) => tokens_equal(a, b),
            (Node::Expression(x), Node::Expression(y)) => {
                let r = nodes_equal(x, y);
                proof {
                    lemma_node_seq_eq(*self, *other, x@, y@, r);
                }
                r
            },
            (Node::List(x), Node::List(y)) => {
                let r = nodes_equal(x, y);
                proof {
                    lemma_node_seq_eq(*self, *other, x@, y@, r);
                }
                r
            },
            (
                Node::FunctionLiteral { token: ta, arguments: aa, body: ba },
                Node::FunctionLiteral { token: tb, arguments: ab, body: bb },
            ) => {
                let r = tokens_equal(ta, tb) && nodes_equal(aa, ab) && ba.equals(bb);
                proof {
                    if r {
                        assert forall|i: int|
                            0 <= i < aa@.len() implies #[trigger] self@->FunctionLiteral_arguments[i]
                            == other@->FunctionLiteral_arguments[i] by {
                            assert(self@->FunctionLiteral_arguments[i] == spec_node_of(aa@[i]));
                            assert(other@->FunctionLiteral_arguments[i] == spec_node_of(ab@[i]));
                        }
                        assert(self@->FunctionLiteral_arguments
                            =~= other@->FunctionLiteral_arguments);
                        assert(self@ == other@);
                    } else {
                        if self@ == other@ {
                            assert forall|i: int| 0 <= i < aa@.len() implies #[trigger] spec_node_of(
                                aa@[i],
                            ) == spec_node_of(ab@[i]) by {
                                assert(self@->FunctionLiteral_arguments[i] == spec_node_of(
                                    aa@[i],
                                ));
                                assert(other@->FunctionLiteral_arguments[i] == spec_node_of(
                                    ab@[i],
                                ));
                            }
                            assert(self@->FunctionLiteral_arguments.len() == aa@.len());
                            assert(other@->FunctionLiteral_arguments.len() == ab@.len());
                            assert(false);
                        }
                    }
                }
                r
            },
            _ => false,
        }
    }

    /// A deep copy of this node, with the same image.
    pub fn duplicate(&self) -> (r: Node)
        ensures
            r@ == self@,
        decreases self,
    {
        match self {
            Node::Word(t) => Node::Word(t.duplicate()),
            Node::Invalid(t) => Node::Invalid(t.duplicate()),
            Node::StringLiteral(t) => Node::StringLiteral(t.duplicate()),
            Node::NumberLiteral(t) => Node::NumberLiteral(t.duplicate()),
            Node::BooleanLiteral(t) => Node::BooleanLiteral(t.duplicate()),
            Node::Expression(v) => {
                let out = duplicate_nodes(v);
                let ghost outv = out@;
                let r = Node::Expression(out);
                proof {
                    assert forall|m: int| 0 <= m < v@.len() implies #[trigger] r@->Expression_0[m]
                        == self@->Expression_0[m] by {
                        assert(r@->Expression_0[m] == spec_node_of(outv[m]));
                        assert(self@->Expression_0[m] == spec_node_of(v@[m]));
                    }
                    assert(r@->Expression_0 =~= self@->Expression_0);
                }
                r
            },
            Node::List(v) => {
                let out = duplicate_nodes(v);
                let ghost outv = out@;
                let r = Node::List(out);
                proof {
                    assert forall|m: int| 0 <= m < v@.len() implies #[trigger] r@->List_0[m]
                        == self@->List_0[m] by {
                        assert(r@->List_0[m] == spec_node_of(outv[m]));
                        assert(self@->List_0[m] == spec_node_of(v@[m]));
                    }
                    assert(r@->List_0 =~= self@->List_0);
                }
                r
            },
            Node::FunctionLiteral { token, arguments, body } => {
                let out = duplicate_nodes(arguments);
                let ghost outv = out@;
                let b = body.duplicate();
                let r = Node::FunctionLiteral {
                    token: token.duplicate(),
                    arguments: out,
                    body: Box::new(b),
                };
                proof {
                    assert forall|m: int|
                        0 <= m < arguments@.len() implies #[trigger] r@->FunctionLiteral_arguments[m]
                        == self@->FunctionLiteral_arguments[m] by {
                        assert(r@->FunctionLiteral_arguments[m] == spec_node_of(outv[m]));
                        assert(self@->FunctionLiteral_arguments[m] == spec_node_of(arguments@[m]));
                    }
                    assert(r@->FunctionLiteral_arguments =~= self@->FunctionLiteral_arguments);
                }
                r
            },
        }
    }

    /// The position of the first code point under this node.
    pub fn first_char(&self) -> (r: TokenPosition)
        ensures
            pos_view(r) == spec_first_char(self@),
        decreases self,
    {
        match self {
            Node::Invalid(token) => token.start,
            Node::StringLiteral(token) => token.start,
            Node::Word(token) => token.start,
            Node::NumberLiteral(token) => token.start,
            Node::BooleanLiteral(token) => token.start,
            Node::Expression(vec) => if vec.len() > 0 {
                proof {
                    assert(self@->Expression_0[0] == vec@[0]@);
                }
                vec[0].first_char()
            } else {
                TokenPosition { line: 64, col: 64 }
            },
            Node::List(vec) => if vec.len() > 0 {
                proof {
                    assert(self@->List_0[0] == vec@[0]@);
                }
                vec[0].first_char()
            } else {
                TokenPosition { line: 64, col: 64 }
            },
            Node::FunctionLiteral { body, .. } => body.first_char(),
        }
    }

    /// The position of the last code point under this node.
    pub fn last_char(&self) -> (r: TokenPosition)
        ensures
            pos_view(r) == spec_last_char(self@),
        decreases self,
    {
        match self {
            Node::Invalid(token) => token.end,
            Node::StringLiteral(token) => token.end,
            Node::Word(token) => token.end,
            Node::NumberLiteral(token) => token.end,
            Node::BooleanLiteral(token) => token.end,
            Node::Expression(vec) => if vec.len() > 0 {
                proof {
                    assert(self@->Expression_0[vec@.len() - 1] == vec@[vec@.len() - 1]@);
                }
                vec[vec.len() - 1].last_char()
            } else {
                TokenPosition { line: 10, col: 0 }
            },
            Node::List(vec) => if vec.len() > 0 {
                proof {
                    assert(self@->List_0[vec@.len() - 1] == vec@[vec@.len() - 1]@);
                }
                vec[vec.len() - 1].last_char()
            } else {
                TokenPosition { line: 10, col: 0 }
            },
            Node::FunctionLiteral { body, .. } => body.last_char(),
        }
    }
}

} // verus!
