use crate::arena::{Arena, Node, NodeRef};
use vstd::prelude::*;

verus! {

#[derive(Clone, Copy, Debug, PartialEq, Eq, Structural)]
pub enum OperationType {
    Add,
    Subtract,
    Multiply,
    Divide,
}

/// The only ways an evaluation can fail.
#[derive(Clone, Copy, Debug, PartialEq, Eq, Structural)]
pub enum DivideError {
    DivisionByZero,
    DivideNotEvenly,
}

/// An expression node: a digit, or an operator applied to two operand nodes
/// of the same arena.
#[derive(Clone, Copy, Debug, PartialEq, Eq, Structural)]
pub enum Expression {
    Operation(OperationType, NodeRef, NodeRef),
    Value(u8),
}

/// The mathematical shape of an expression, with operands in place of handles.
pub enum Tree {
    Leaf(u8),
    Op(OperationType, Box<Tree>, Box<Tree>),
}

/// One operator applied to two integers; division must be exact.
pub open spec fn apply(op: OperationType, a: int, b: int) -> Result<int, DivideError> {
    match op {
        OperationType::Add => Ok(a + b),
        OperationType::Subtract => Ok(a - b),
        OperationType::Multiply => Ok(a * b),
        OperationType::Divide => if b == 0 {
            Err(DivideError::DivisionByZero)
        } else if a % b != 0 {
            Err(DivideError::DivideNotEvenly)
        } else {
            Ok(a / b)
        },
    }
}

/// The value of a tree over unbounded integers. The left operand is evaluated
/// first and its error, if any, wins.
pub open spec fn eval(t: Tree) -> Result<int, DivideError>
    decreases t,
{
    match t {
        Tree::Leaf(v) => Ok(v as int),
        Tree::Op(op, l, r) => match eval(*l) {
            Err(e) => Err(e),
            Ok(a) => match eval(*r) {
                Err(e) => Err(e),
                Ok(b) => apply(op, a, b),
            },
        },
    }
}

pub open spec fn in_i32(v: int) -> bool {
    i32::MIN <= v <= i32::MAX
}

/// Every value that the evaluation of `t` computes fits in an `i32`.
pub open spec fn fits(t: Tree) -> bool
    decreases t,
{
    match t {
        Tree::Leaf(_) => true,
        Tree::Op(op, l, r) => fits(*l) && match eval(*l) {
            Err(_) => true,
            Ok(a) => fits(*r) && match eval(*r) {
                Err(_) => true,
                Ok(b) => match apply(op, a, b) {
                    Err(_) => true,
                    Ok(v) => in_i32(v),
                },
            },
        },
    }
}

/// The tree rooted at node `i`. Operands must stand before their operator;
/// a node that breaks this (see `well_formed`) reads as a zero leaf.
pub open spec fn tree_at(nodes: Seq<Node<Expression>>, i: int) -> Tree
    decreases i,
{
    if 0 <= i < nodes.len() {
        match nodes[i].val() {
            Expression::Value(v) => Tree::Leaf(v),
            Expression::Operation(op, l, r) => if l.index < i && r.index < i {
                Tree::Op(op, Box::new(tree_at(nodes, l.index as int)), Box::new(tree_at(nodes, r.index as int)))
            } else {
                Tree::Leaf(0)
            },
        }
    } else {
        Tree::Leaf(0)
    }
}

/// The tree of an expression whose operands are nodes of `nodes`.
pub open spec fn tree_of(nodes: Seq<Node<Expression>>, e: Expression) -> Tree {
    match e {
        Expression::Value(v) => Tree::Leaf(v),
        Expression::Operation(op, l, r) => Tree::Op(
            op,
            Box::new(tree_at(nodes, l.index as int)),
            Box::new(tree_at(nodes, r.index as int)),
        ),
    }
}

/// The operands of `e` are nodes of `nodes`.
pub open spec fn refers_within(nodes: Seq<Node<Expression>>, e: Expression) -> bool {
    match e {
        Expression::Value(_) => true,
        Expression::Operation(_, l, r) => l.index < nodes.len() && r.index < nodes.len(),
    }
}

/// Each operation node refers only to nodes inserted before it, so the nodes
/// form a forest with no cycle.
pub open spec fn well_formed(nodes: Seq<Node<Expression>>) -> bool {
    forall|i: int|
        0 <= i < nodes.len() ==> #[trigger] refers_within(nodes.subrange(0, i), nodes[i].val())
}

/// An `i32` result read as an integer result.
pub open spec fn widen(r: Result<i32, DivideError>) -> Result<int, DivideError> {
    match r {
        Ok(v) => Ok(v as int),
        Err(e) => Err(e),
    }
}

/// The rank of an expression: one past its highest operand handle.
pub open spec fn rank(e: Expression) -> nat {
    match e {
        Expression::Value(_) => 0,
        Expression::Operation(_, l, r) => if l.index < r.index {
            r.index as nat + 1
        } else {
            l.index as nat + 1
        },
    }
}

/// The tree at a node of a well-formed arena is the tree of its expression.
pub proof fn lemma_tree_at_node(nodes: Seq<Node<Expression>>, i: int)
    requires
        well_formed(nodes),
        0 <= i < nodes.len(),
    ensures
        tree_at(nodes, i) == tree_of(nodes, nodes[i].val()),
        refers_within(nodes, nodes[i].val()),
        rank(nodes[i].val()) <= i,
{
    assert(refers_within(nodes.subrange(0, i), nodes[i].val()));
}

fn apply_checked(op: OperationType, a: i32, b: i32) -> (r: Option<Result<i32, DivideError>>)
    ensures
        match r {
            None => apply(op, a as int, b as int) matches Ok(v) && !in_i32(v),
            Some(res) => widen(res) == apply(op, a as int, b as int),
        },
{
    match op {
        OperationType::Add => match a.checked_add(b) {
            Some(v) => Some(Ok(v)),
            None => None,
        },
        OperationType::Subtract => match a.checked_sub(b) {
            Some(v) => Some(Ok(v)),
            None => None,
        },
        OperationType::Multiply => match a.checked_mul(b) {
            Some(v) => Some(Ok(v)),
            None => None,
        },
        OperationType::Divide => {
            if b == 0 {
                return Some(Err(DivideError::DivisionByZero));
            }
            match a.checked_rem_euclid(b) {
                None => {
                    // only `i32::MIN % -1` is out of range here, and its quotient is too
                    assert(a == i32::MIN && b == -1);
                    assert((a as int) % (b as int) == 0) by (nonlinear_arith)
                        requires a == i32::MIN, b == -1;
                    assert((a as int) / (b as int) == 0x8000_0000) by (nonlinear_arith)
                        requires a == i32::MIN, b == -1;
                    None
                },
                Some(m) => {
                    if m != 0 {
                        Some(Err(DivideError::DivideNotEvenly))
                    } else {
                        match a.checked_div_euclid(b) {
                            Some(q) => Some(Ok(q)),
                            None => None,
                        }
                    }
                },
            }
        },
    }
}

impl Expression {
    /// Evaluates the expression, reporting `None` when a value computed on
    /// the way does not fit in an `i32`.
    pub fn checked_interpret(&self, arena: &Arena<Expression>) -> (r: Option<Result<i32, DivideError>>)
        requires
            well_formed(arena@),
            refers_within(arena@, *self),
        ensures
            match r {
                None => !fits(tree_of(arena@, *self)),
                Some(res) => fits(tree_of(arena@, *self)) && widen(res) == eval(tree_of(arena@, *self)),
            },
        decreases rank(*self),
    {
        match *self {
            Expression::Value(v) => Some(Ok(v as i32)),
            Expression::Operation(op, left, right) => {
                proof {
                    lemma_tree_at_node(arena@, left.index as int);
                    lemma_tree_at_node(arena@, right.index as int);
                }
                let a = match arena.get(left).value().checked_interpret(arena) {
                    None => return None,
                    Some(Err(e)) => return Some(Err(e)),
                    Some(Ok(a)) => a,
                };
                let b = match arena.get(right).value().checked_interpret(arena) {
                    None => return None,
                    Some(Err(e)) => return Some(Err(e)),
                    Some(Ok(b)) => b,
                };
                apply_checked(op, a, b)
            },
        }
    }

    /// Evaluates the expression: digits widen to `i32`, operands are
    /// evaluated left first, and division must be exact and by a non-zero
    /// divisor.
    pub fn interpret(&self, arena: &Arena<Expression>) -> (r: Result<i32, DivideError>)
        requires
            well_formed(arena@),
            refers_within(arena@, *self),
            fits(tree_of(arena@, *self)),
        ensures
            widen(r) == eval(tree_of(arena@, *self)),
    {
        self.checked_interpret(arena).unwrap()
    }
}

/// Both operands of `e` are digit nodes, holding `a` and `b`.
pub open spec fn digit_operands(nodes: Seq<Node<Expression>>, e: Expression, a: u8, b: u8) -> bool {
    match e {
        Expression::Value(_) => false,
        Expression::Operation(_, l, r) => {
            &&& l.index < nodes.len()
            &&& r.index < nodes.len()
            &&& nodes[l.index as int].val() == Expression::Value(a)
            &&& nodes[r.index as int].val() == Expression::Value(b)
        },
    }
}

proof fn lemma_digit_tree(nodes: Seq<Node<Expression>>, op: OperationType, l: NodeRef, r: NodeRef, a: u8, b: u8)
    requires
        digit_operands(nodes, Expression::Operation(op, l, r), a, b),
    ensures
        tree_of(nodes, Expression::Operation(op, l, r)) == Tree::Op(op, Box::new(Tree::Leaf(a)), Box::new(Tree::Leaf(b))),
        eval(Tree::Leaf(a)) == Ok::<int, DivideError>(a as int),
        eval(Tree::Leaf(b)) == Ok::<int, DivideError>(b as int),
        fits(Tree::Leaf(a)),
        fits(Tree::Leaf(b)),
{
    assert(tree_at(nodes, l.index as int) == Tree::Leaf(a));
    assert(tree_at(nodes, r.index as int) == Tree::Leaf(b));
}

/// Dividing a digit by a non-zero digit that divides it gives the exact
/// quotient.
pub proof fn lemma_divide_exact(nodes: Seq<Node<Expression>>, l: NodeRef, r: NodeRef, a: u8, b: u8)
    requires
        digit_operands(nodes, Expression::Operation(OperationType::Divide, l, r), a, b),
        b != 0,
        a % b == 0,
    ensures
        eval(tree_of(nodes, Expression::Operation(OperationType::Divide, l, r))) == Ok::<int, DivideError>((a / b) as int),
        fits(tree_of(nodes, Expression::Operation(OperationType::Divide, l, r))),
{
    lemma_digit_tree(nodes, OperationType::Divide, l, r, a, b);
    assert((a as int) / (b as int) <= a as int) by (nonlinear_arith)
        requires a >= 0, b > 0;
}

/// Dividing a digit by zero fails with `DivisionByZero`.
pub proof fn lemma_divide_by_zero(nodes: Seq<Node<Expression>>, l: NodeRef, r: NodeRef, a: u8)
    requires
        digit_operands(nodes, Expression::Operation(OperationType::Divide, l, r), a, 0),
    ensures
        eval(tree_of(nodes, Expression::Operation(OperationType::Divide, l, r))) == Err::<int, DivideError>(DivideError::DivisionByZero),
        fits(tree_of(nodes, Expression::Operation(OperationType::Divide, l, r))),
{
    lemma_digit_tree(nodes, OperationType::Divide, l, r, a, 0);
}

/// Dividing a digit by a non-zero digit that does not divide it fails with
/// `DivideNotEvenly`.
pub proof fn lemma_divide_not_evenly(nodes: Seq<Node<Expression>>, l: NodeRef, r: NodeRef, a: u8, b: u8)
    requires
        digit_operands(nodes, Expression::Operation(OperationType::Divide, l, r), a, b),
        b != 0,
        a % b != 0,
    ensures
        eval(tree_of(nodes, Expression::Operation(OperationType::Divide, l, r))) == Err::<int, DivideError>(DivideError::DivideNotEvenly),
        fits(tree_of(nodes, Expression::Operation(OperationType::Divide, l, r))),
{
    lemma_digit_tree(nodes, OperationType::Divide, l, r, a, b);
}

/// Adding, subtracting and multiplying two digits give their sum,
/// difference and product, all within `i32`.
pub proof fn lemma_arithmetic_identities(nodes: Seq<Node<Expression>>, l: NodeRef, r: NodeRef, a: u8, b: u8)
    requires
        digit_operands(nodes, Expression::Operation(OperationType::Add, l, r), a, b),
    ensures
        eval(tree_of(nodes, Expression::Operation(OperationType::Add, l, r))) == Ok::<int, DivideError>(a + b),
        eval(tree_of(nodes, Expression::Operation(OperationType::Subtract, l, r))) == Ok::<int, DivideError>(a - b),
        eval(tree_of(nodes, Expression::Operation(OperationType::Multiply, l, r))) == Ok::<int, DivideError>(a * b),
        fits(tree_of(nodes, Expression::Operation(OperationType::Add, l, r))),
        fits(tree_of(nodes, Expression::Operation(OperationType::Subtract, l, r))),
        fits(tree_of(nodes, Expression::Operation(OperationType::Multiply, l, r))),
{
    lemma_digit_tree(nodes, OperationType::Add, l, r, a, b);
    lemma_digit_tree(nodes, OperationType::Subtract, l, r, a, b);
    lemma_digit_tree(nodes, OperationType::Multiply, l, r, a, b);
    assert(0 <= (a as int) * (b as int) <= 255 * 255) by (nonlinear_arith)
        requires 0 <= a <= 255, 0 <= b <= 255;
}

/// Evaluation does not change the tree it reads: any two results that
/// `interpret` may return for the same expression over the same arena are
/// equal.
pub proof fn lemma_interpret_repeatable(
    nodes: Seq<Node<Expression>>,
    e: Expression,
    first: Result<i32, DivideError>,
    second: Result<i32, DivideError>,
)
    requires
        widen(first) == eval(tree_of(nodes, e)),
        widen(second) == eval(tree_of(nodes, e)),
    ensures
        first == second,
{
    match first {
        Ok(x) => {
            assert(widen(second) == Ok::<int, DivideError>(x as int));
        },
        Err(x) => {
            assert(widen(second) == Err::<int, DivideError>(x));
        },
    }
}

} // verus!
