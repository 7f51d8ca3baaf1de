//! The syntax tree produced by the parser and consumed by the evaluator,
//! together with its mathematical view.

use vstd::prelude::*;

verus! {

// ----------------------------------------------------------------------------
// executable syntax tree
// ----------------------------------------------------------------------------

/// One node of the syntax tree. `Statement` and `Block` wrap the statement
/// and block forms; the remaining variants are expressions.
#[derive(Debug)]
pub enum Node {
    Statement(Statement),
    Block(Block),
    /// A call expression: the callee followed by its argument list.
    ParenArgs(Box<Node>, Vec<Node>),
    BinaryOp(Box<BinaryOp>),
    Identifier(String),
    String(String),
    Integer(i32),
    Boolean(bool),
}

/// A binary operation joining two operand expressions.
#[derive(Debug)]
pub struct BinaryOp {
    pub op: Operator,
    pub a: Node,
    pub b: Node,
}

/// A statement form: a `let` definition or an `if` with its optional
/// `else`/`elif` continuation.
#[derive(Debug)]
pub enum Statement {
    SetVariable(String, Box<Node>),
    If(Box<Node>, Box<Node>, Option<Box<Node>>),
}

/// An ordered sequence of statements; order is execution order.
#[derive(Debug)]
pub struct Block {
    pub statements: Vec<Node>,
}

/// The closed set of binary operators. `FieldAccess` and `Paren` are
/// grammar-only markers, never part of a resolved expression tree.
#[derive(Debug, Clone, Copy, PartialEq, Eq, Structural)]
pub enum Operator {
    // arithmetic
    Add,
    Sub,
    Mul,
    Div,
    Pow,
    Mod,
    // comparison
    Equal,
    Inequal,
    Less,
    LessEqual,
    Greater,
    GreaterEqual,
    // logic
    And,
    Or,
    // assignment
    SetValue,
    // grammar-only markers
    FieldAccess,
    Paren,
}

impl Block {
    /// Wraps a statement list as a block.
    pub fn new(statements: Vec<Node>) -> (r: Self)
        ensures
            r.statements@ == statements@,
    {
        Self { statements }
    }
}

impl Operator {
    /// The operator's position in the priority table: operators in the
    /// lowest-numbered level present are contracted first, so assignment
    /// binds tightest and `||` loosest. The two grammar-only markers sit
    /// outside the table.
    pub open spec fn spec_level(self) -> int {
        match self {
            Operator::SetValue => 0,
            Operator::Pow => 1,
            Operator::Mul | Operator::Div | Operator::Mod => 2,
            Operator::Add | Operator::Sub => 3,
            Operator::Equal | Operator::Inequal | Operator::Less
                | Operator::LessEqual | Operator::Greater | Operator::GreaterEqual => 4,
            Operator::And => 5,
            Operator::Or => 6,
            Operator::FieldAccess | Operator::Paren => 7,
        }
    }

    /// Whether the operator takes part in precedence resolution at all.
    pub open spec fn spec_resolvable(self) -> bool {
        self.spec_level() <= 6
    }

    /// Computes the operator's priority level.
    pub fn level(self) -> (r: u8)
        ensures
            r as int == self.spec_level(),
    {
        match self {
            Operator::SetValue => 0,
            Operator::Pow => 1,
            Operator::Mul | Operator::Div | Operator::Mod => 2,
            Operator::Add | Operator::Sub => 3,
            Operator::Equal | Operator::Inequal | Operator::Less
                | Operator::LessEqual | Operator::Greater | Operator::GreaterEqual => 4,
            Operator::And => 5,
            Operator::Or => 6,
            Operator::FieldAccess | Operator::Paren => 7,
        }
    }
}

// ----------------------------------------------------------------------------
// mathematical view
// ----------------------------------------------------------------------------

/// The mathematical value of a `Node`: the same tree with strings as
/// character sequences and vectors as sequences.
#[verifier::ext_equal]
pub enum NodeV {
    Statement(StatementV),
    Block(BlockV),
    ParenArgs(Box<NodeV>, Seq<NodeV>),
    BinaryOp(Operator, Box<NodeV>, Box<NodeV>),
    Identifier(Seq<char>),
    String(Seq<char>),
    Integer(i32),
    Boolean(bool),
}

/// The mathematical value of a `Statement`.
#[verifier::ext_equal]
pub enum StatementV {
    SetVariable(Seq<char>, Box<NodeV>),
    If(Box<NodeV>, Box<NodeV>, Option<Box<NodeV>>),
}

/// The mathematical value of a `Block`.
#[verifier::ext_equal]
pub struct BlockV {
    pub statements: Seq<NodeV>,
}

pub open spec fn node_view(n: Node) -> NodeV
    decreases n,
{
    match n {
        Node::Statement(s) => NodeV::Statement(statement_view(s)),
        Node::Block(b) => NodeV::Block(block_view(b)),
        Node::ParenArgs(root, args) => NodeV::ParenArgs(
            Box::new(node_view(*root)),
            nodes_view(args@),
        ),
        Node::BinaryOp(b) => NodeV::BinaryOp(
            b.op,
            Box::new(node_view(b.a)),
            Box::new(node_view(b.b)),
        ),
        Node::Identifier(name) => NodeV::Identifier(name@),
        Node::String(s) => NodeV::String(s@),
        Node::Integer(i) => NodeV::Integer(i),
        Node::Boolean(b) => NodeV::Boolean(b),
    }
}

pub open spec fn nodes_view(s: Seq<Node>) -> Seq<NodeV>
    decreases s,
{
    if s.len() == 0 {
        Seq::empty()
    } else {
        seq![node_view(s[0])] + nodes_view(s.drop_first())
    }
}

pub open spec fn statement_view(s: Statement) -> StatementV
    decreases s,
{
    match s {
        Statement::SetVariable(name, value) => StatementV::SetVariable(
            name@,
            Box::new(node_view(*value)),
        ),
        Statement::If(cond, block, ext) => StatementV::If(
            Box::new(node_view(*cond)),
            Box::new(node_view(*block)),
            match ext {
                Option::Some(e) => Option::Some(Box::new(node_view(*e))),
                Option::None => Option::None,
            },
        ),
    }
}

pub open spec fn block_view(b: Block) -> BlockV
    decreases b,
{
    BlockV { statements: nodes_view(b.statements@) }
}

// ----------------------------------------------------------------------------
// well-formedness
// ----------------------------------------------------------------------------

/// Shape constraints the parser guarantees: every operator in a resolved
/// tree takes part in precedence resolution, an `if` holds a block, and its
/// continuation is either a terminal block or a chained `if`.
pub open spec fn node_wf(n: NodeV) -> bool
    decreases n,
{
    match n {
        NodeV::Statement(s) => statement_wf(s),
        NodeV::Block(b) => block_wf(b),
        NodeV::ParenArgs(root, args) => node_wf(*root) && nodes_wf(args),
        NodeV::BinaryOp(op, a, b) => op.spec_resolvable() && node_wf(*a) && node_wf(*b),
        NodeV::Identifier(_) => true,
        NodeV::String(_) => true,
        NodeV::Integer(_) => true,
        NodeV::Boolean(_) => true,
    }
}

pub open spec fn nodes_wf(s: Seq<NodeV>) -> bool
    decreases s,
{
    if s.len() == 0 {
        true
    } else {
        node_wf(s[0]) && nodes_wf(s.drop_first())
    }
}

pub open spec fn statement_wf(s: StatementV) -> bool
    decreases s,
{
    match s {
        StatementV::SetVariable(_, value) => node_wf(*value),
        StatementV::If(cond, block, ext) => node_wf(*cond) && (match *block {
            NodeV::Block(b) => block_wf(b),
            _ => false,
        }) && (match ext {
            Option::None => true,
            Option::Some(e) => match *e {
                NodeV::Block(b) => block_wf(b),
                NodeV::Statement(s2) => s2 matches StatementV::If(..) && statement_wf(s2),
                _ => false,
            },
        }),
    }
}

pub open spec fn block_wf(b: BlockV) -> bool
    decreases b,
{
    nodes_wf(b.statements)
}

/// `nodes_view` maps the view over the elements: same length, element views
/// in place.
pub proof fn lemma_nodes_view_index(s: Seq<Node>)
    ensures
        nodes_view(s).len() == s.len(),
        forall|i: int| 0 <= i < s.len() ==> nodes_view(s)[i] == node_view(#[trigger] s[i]),
    decreases s,
{
    if s.len() > 0 {
        lemma_nodes_view_index(s.drop_first());
        assert forall|i: int| 0 <= i < s.len() implies nodes_view(s)[i] == node_view(
            #[trigger] s[i],
        ) by {
            if i > 0 {
                assert(s.drop_first()[i - 1] == s[i]);
            }
        }
    }
}

/// `nodes_wf` of a sequence is well-formedness of every element.
pub proof fn lemma_nodes_wf_index(s: Seq<NodeV>)
    ensures
        nodes_wf(s) <==> (forall|i: int| 0 <= i < s.len() ==> node_wf(#[trigger] s[i])),
    decreases s,
{
    if s.len() > 0 {
        lemma_nodes_wf_index(s.drop_first());
        assert(forall|i: int| 1 <= i < s.len() ==> #[trigger] s[i] == s.drop_first()[i - 1]);
    }
}

impl View for Node {
    type V = NodeV;

    open spec fn view(&self) -> NodeV {
        node_view(*self)
    }
}

impl View for Statement {
    type V = StatementV;

    open spec fn view(&self) -> StatementV {
        statement_view(*self)
    }
}

impl View for Block {
    type V = BlockV;

    open spec fn view(&self) -> BlockV {
        block_view(*self)
    }
}

// ----------------------------------------------------------------------------
// cloning
// ----------------------------------------------------------------------------

impl Clone for Node {
    /// Deep copy with the same mathematical value.
    fn clone(&self) -> (r: Self)
        ensures
            r@ == self@,
        decreases *self,
    {
        match self {
            Node::Statement(s) => Node::Statement(s.clone()),
            Node::Block(b) => Node::Block(b.clone()),
            Node::ParenArgs(root, args) => {
                let root2 = Box::new((**root).clone());
                let args2 = clone_nodes(args);
                proof {
                    lemma_nodes_view_index(args@);
                    lemma_nodes_view_index(args2@);
                    assert forall|i: int| 0 <= i < args@.len() implies nodes_view(args2@)[i]
                        == nodes_view(args@)[i] by {
                        assert(args2@[i]@ == args@[i]@);
                    }
                    assert(nodes_view(args2@) =~= nodes_view(args@));
                }
                Node::ParenArgs(root2, args2)
            },
            Node::BinaryOp(b) => Node::BinaryOp(Box::new(BinaryOp {
                op: b.op,
                a: b.a.clone(),
                b: b.b.clone(),
            })),
            Node::Identifier(name) => Node::Identifier(name.clone()),
            Node::String(s) => Node::String(s.clone()),
            Node::Integer(i) => Node::Integer(*i),
            Node::Boolean(b) => Node::Boolean(*b),
        }
    }
}

impl Clone for Statement {
    /// Deep copy with the same mathematical value.
    fn clone(&self) -> (r: Self)
        ensures
            r@ == self@,
        decreases *self,
    {
        match self {
            Statement::SetVariable(name, value) => Statement::SetVariable(
                name.clone(),
                Box::new((**value).clone()),
            ),
            Statement::If(cond, block, ext) => Statement::If(
                Box::new((**cond).clone()),
                Box::new((**block).clone()),
                match ext {
                    Option::Some(e) => Option::Some(Box::new((**e).clone())),
                    Option::None => Option::None,
                },
            ),
        }
    }
}

impl Clone for Block {
    /// Deep copy with the same mathematical value.
    fn clone(&self) -> (r: Self)
        ensures
            r@ == self@,
        decreases *self,
    {
        let statements = clone_nodes(&self.statements);
        proof {
            lemma_nodes_view_index(self.statements@);
            lemma_nodes_view_index(statements@);
            assert forall|i: int| 0 <= i < self.statements@.len() implies nodes_view(
                statements@,
            )[i] == nodes_view(self.statements@)[i] by {
                assert(statements@[i]@ == self.statements@[i]@);
            }
            assert(nodes_view(statements@) =~= nodes_view(self.statements@));
        }
        Block { statements }
    }
}

/// Deep copy of a node list, element by element.
fn clone_nodes(v: &Vec<Node>) -> (r: Vec<Node>)
    ensures
        r@.len() == v@.len(),
        forall|i: int| 0 <= i < v@.len() ==> #[trigger] r@[i]@ == v@[i]@,
    decreases *v,
{
    let mut out: Vec<Node> = Vec::new();
    let n = v.len();
    for k in 0..n
        invariant
            n == v@.len(),
            out@.len() == k,
            forall|i: int| 0 <= i < k ==> #[trigger] out@[i]@ == v@[i]@,
    {
        out.push(v[k].clone());
    }
    out
}

} // verus!

