use crate::arena::{Arena, Node, NodeRef};
use crate::expressions::{Expression, OperationType, Tree, tree_at, well_formed, refers_within};
use vstd::prelude::*;
use vstd::string::*;

verus! {

/// One lexical unit of a line: a digit or an operator.
#[derive(Clone, Copy, Debug, PartialEq, Eq, Structural)]
pub enum Token {
    OperationToken(OperationType),
    ValueToken(u8),
}

/// Why a line could not be split into tokens; each carries the position, in
/// characters, of the offending character.
#[derive(Clone, Copy, Debug, PartialEq, Eq, Structural)]
pub enum TokenizeError {
    InvalidCharacter(usize),
    AdjacentOperators(usize),
}

/// Why a token sequence is not an expression.
#[derive(Clone, Copy, Debug, PartialEq, Eq, Structural)]
pub enum ParseError {
    /// There are no tokens at all.
    Empty,
    /// An operator stands where an operand is due, or the tokens end with an
    /// operator.
    MissingOperand,
    /// An operand stands where an operator is due.
    MissingOperator,
}

pub open spec fn is_operator_char(c: char) -> bool {
    c == '+' || c == '-' || c == '*' || c == '/'
}

pub open spec fn is_digit_char(c: char) -> bool {
    '0' as u32 <= c as u32 <= '9' as u32
}

pub open spec fn operation_of(c: char) -> OperationType {
    if c == '+' {
        OperationType::Add
    } else if c == '-' {
        OperationType::Subtract
    } else if c == '*' {
        OperationType::Multiply
    } else {
        OperationType::Divide
    }
}

pub open spec fn token_of(c: char) -> Token {
    if is_operator_char(c) {
        Token::OperationToken(operation_of(c))
    } else {
        Token::ValueToken((c as u32 - '0' as u32) as u8)
    }
}

/// The tokens of a line, one per character, read left to right. The first
/// character that is neither a digit nor an operator, or that is an operator
/// right after another operator, is reported.
pub open spec fn tokenize(s: Seq<char>) -> Result<Seq<Token>, TokenizeError>
    decreases s.len(),
{
    if s.len() == 0 {
        Ok(Seq::empty())
    } else {
        let i = s.len() - 1;
        let c = s[i];
        match tokenize(s.drop_last()) {
            Err(e) => Err(e),
            Ok(t) => if !is_digit_char(c) && !is_operator_char(c) {
                Err(TokenizeError::InvalidCharacter(i as usize))
            } else if is_operator_char(c) && i > 0 && is_operator_char(s[i - 1]) {
                Err(TokenizeError::AdjacentOperators(i as usize))
            } else {
                Ok(t.push(token_of(c)))
            },
        }
    }
}

proof fn lemma_tokenize_error_stays(s: Seq<char>, k: int)
    requires
        0 <= k <= s.len(),
        tokenize(s.subrange(0, k)) is Err,
    ensures
        tokenize(s) == tokenize(s.subrange(0, k)),
    decreases s.len() - k,
{
    if k < s.len() {
        let t = s.subrange(0, k + 1);
        assert(t.drop_last() =~= s.subrange(0, k));
        assert(s.subrange(0, k + 1).subrange(0, k) =~= s.subrange(0, k));
        lemma_tokenize_error_stays(s, k + 1);
    } else {
        assert(s.subrange(0, k) =~= s);
    }
}

fn map_char_to_operation_type(c: char) -> (r: OperationType)
    requires
        is_operator_char(c),
    ensures
        r == operation_of(c),
{
    if c == '+' {
        OperationType::Add
    } else if c == '-' {
        OperationType::Subtract
    } else if c == '*' {
        OperationType::Multiply
    } else {
        OperationType::Divide
    }
}

/// Splits a line into tokens, one per character.
pub fn parse_line(line: &str) -> (r: Result<Vec<Token>, TokenizeError>)
    ensures
        match tokenize(line@) {
            Ok(t) => r matches Ok(v) && v@ == t,
            Err(e) => r == Err::<Vec<Token>, TokenizeError>(e),
        },
{
    let n = line.unicode_len();
    let mut tokens: Vec<Token> = Vec::new();
    let mut previous_is_operator = false;
    let mut i: usize = 0;
    while i < n
        invariant
            i <= n,
            n == line@.len(),
            tokenize(line@.subrange(0, i as int)) == Ok::<Seq<Token>, TokenizeError>(tokens@),
            previous_is_operator == (i > 0 && is_operator_char(line@[i - 1])),
        decreases n - i,
    {
        let c = line.get_char(i);
        let ghost next = line@.subrange(0, i + 1);
        assert(next.drop_last() =~= line@.subrange(0, i as int));
        if c == '+' || c == '-' || c == '*' || c == '/' {
            if previous_is_operator {
                proof {
                    lemma_tokenize_error_stays(line@, i + 1);
                }
                return Err(TokenizeError::AdjacentOperators(i));
            }
            tokens.push(Token::OperationToken(map_char_to_operation_type(c)));
            previous_is_operator = true;
        } else if '0' <= c && c <= '9' {
            tokens.push(Token::ValueToken((c as u32 - '0' as u32) as u8));
            previous_is_operator = false;
        } else {
            proof {
                lemma_tokenize_error_stays(line@, i + 1);
            }
            return Err(TokenizeError::InvalidCharacter(i));
        }
        i = i + 1;
    }
    assert(line@.subrange(0, n as int) =~= line@);
    Ok(tokens)
}

pub open spec fn digit_of(t: Token) -> u8 {
    match t {
        Token::ValueToken(d) => d,
        Token::OperationToken(_) => 0,
    }
}

pub open spec fn op_of(t: Token) -> OperationType {
    match t {
        Token::OperationToken(op) => op,
        Token::ValueToken(_) => OperationType::Add,
    }
}

pub open spec fn is_additive(t: Token) -> bool {
    t == Token::OperationToken(OperationType::Add) || t == Token::OperationToken(OperationType::Subtract)
}

/// Operands stand at even positions and operators at odd ones.
pub open spec fn in_place(s: Seq<Token>, i: int) -> bool {
    if i % 2 == 0 {
        s[i] is ValueToken
    } else {
        s[i] is OperationToken
    }
}

/// The first position whose token is out of place, if any.
pub open spec fn first_misplaced(s: Seq<Token>) -> Option<int>
    decreases s.len(),
{
    if s.len() == 0 {
        None
    } else {
        match first_misplaced(s.drop_last()) {
            Some(i) => Some(i),
            None => if in_place(s, s.len() - 1) {
                None
            } else {
                Some(s.len() - 1)
            },
        }
    }
}

/// Why `s` is not an alternation of operands and operators that starts and
/// ends with an operand, if it is not one.
pub open spec fn parse_error(s: Seq<Token>) -> Option<ParseError> {
    if s.len() == 0 {
        Some(ParseError::Empty)
    } else {
        match first_misplaced(s) {
            Some(i) => if i % 2 == 0 {
                Some(ParseError::MissingOperand)
            } else {
                Some(ParseError::MissingOperator)
            },
            None => if s.len() % 2 == 0 {
                Some(ParseError::MissingOperand)
            } else {
                None
            },
        }
    }
}

/// `term := value ((* | /) value)*`, folded to the left: the last operator
/// applies to everything before it and the last operand.
pub open spec fn term_tree(s: Seq<Token>) -> Tree
    decreases s.len(),
{
    if s.len() <= 2 {
        Tree::Leaf(digit_of(s[0]))
    } else {
        Tree::Op(
            op_of(s[s.len() - 2]),
            Box::new(term_tree(s.subrange(0, s.len() - 2))),
            Box::new(Tree::Leaf(digit_of(s[s.len() - 1]))),
        )
    }
}

/// The position of the last `+` or `-` among the operator positions, or -1.
pub open spec fn last_additive(s: Seq<Token>) -> int
    decreases s.len(),
{
    if s.len() < 2 {
        -1
    } else if is_additive(s[s.len() - 2]) {
        s.len() - 2
    } else {
        last_additive(s.subrange(0, s.len() - 2))
    }
}

/// `expr := term ((+ | -) term)*`, folded to the left: the last `+` or `-`
/// applies to the expression before it and the term after it.
pub open spec fn expr_tree(s: Seq<Token>) -> Tree
    decreases s.len(),
{
    let k = last_additive(s);
    if k < 0 || k >= s.len() {
        term_tree(s)
    } else {
        Tree::Op(
            op_of(s[k]),
            Box::new(expr_tree(s.subrange(0, k))),
            Box::new(term_tree(s.subrange(k + 1, s.len() as int))),
        )
    }
}

proof fn lemma_last_additive_bounds(s: Seq<Token>)
    ensures
        -1 <= last_additive(s),
        last_additive(s) == -1 || last_additive(s) + 2 <= s.len(),
        last_additive(s) >= 0 ==> is_additive(s[last_additive(s)]),
    decreases s.len(),
{
    if s.len() >= 2 && !is_additive(s[s.len() - 2]) {
        let t = s.subrange(0, s.len() - 2);
        lemma_last_additive_bounds(t);
    }
}

proof fn lemma_misplaced_stays(s: Seq<Token>, k: int)
    requires
        0 <= k <= s.len(),
        first_misplaced(s.subrange(0, k)) is Some,
    ensures
        first_misplaced(s) == first_misplaced(s.subrange(0, k)),
    decreases s.len() - k,
{
    if k < s.len() {
        assert(s.subrange(0, k + 1).drop_last() =~= s.subrange(0, k));
        lemma_misplaced_stays(s, k + 1);
    } else {
        assert(s.subrange(0, k) =~= s);
    }
}

proof fn lemma_misplaced_step(s: Seq<Token>, k: int)
    requires
        0 <= k < s.len(),
        first_misplaced(s.subrange(0, k)) is None,
    ensures
        first_misplaced(s.subrange(0, k + 1)) == (if in_place(s, k) {
            None::<int>
        } else {
            Some(k)
        }),
{
    assert(s.subrange(0, k + 1).drop_last() =~= s.subrange(0, k));
}

proof fn lemma_tree_at_stable(nodes: Seq<Node<Expression>>, more: Seq<Node<Expression>>, i: int)
    requires
        nodes.len() <= more.len(),
        more.subrange(0, nodes.len() as int) == nodes,
        0 <= i < nodes.len(),
    ensures
        tree_at(more, i) == tree_at(nodes, i),
    decreases i,
{
    assert(more[i] == nodes[i]);
    if let Expression::Operation(op, l, r) = nodes[i].val() {
        if l.index < i && r.index < i {
            lemma_tree_at_stable(nodes, more, l.index as int);
            lemma_tree_at_stable(nodes, more, r.index as int);
        }
    }
}

proof fn lemma_multiplicative_step(s: Seq<Token>, i: int)
    requires
        1 <= i,
        i + 2 <= s.len(),
        !is_additive(s[i]),
    ensures
        last_additive(s.subrange(0, i + 2)) == last_additive(s.subrange(0, i)),
        term_tree(s.subrange(last_additive(s.subrange(0, i)) + 1, i + 2)) == Tree::Op(
            op_of(s[i]),
            Box::new(term_tree(s.subrange(last_additive(s.subrange(0, i)) + 1, i))),
            Box::new(Tree::Leaf(digit_of(s[i + 1]))),
        ),
{
    let prefix = s.subrange(0, i);
    lemma_last_additive_bounds(prefix);
    let k = last_additive(prefix);
    assert(s.subrange(0, i + 2).subrange(0, i) =~= prefix);
    let u = s.subrange(k + 1, i + 2);
    assert(u.subrange(0, u.len() - 2) =~= s.subrange(k + 1, i));
}

proof fn lemma_additive_step(s: Seq<Token>, i: int)
    requires
        1 <= i,
        i + 2 <= s.len(),
        is_additive(s[i]),
    ensures
        last_additive(s.subrange(0, i + 2)) == i,
        term_tree(s.subrange(i + 1, i + 2)) == Tree::Leaf(digit_of(s[i + 1])),
        ({
            let k = last_additive(s.subrange(0, i));
            expr_tree(s.subrange(0, i)) == if k < 0 {
                term_tree(s.subrange(k + 1, i))
            } else {
                Tree::Op(
                    op_of(s[k]),
                    Box::new(expr_tree(s.subrange(0, k))),
                    Box::new(term_tree(s.subrange(k + 1, i))),
                )
            }
        }),
{
    let prefix = s.subrange(0, i);
    lemma_last_additive_bounds(prefix);
    let k = last_additive(prefix);
    if k >= 0 {
        assert(prefix.subrange(0, k) =~= s.subrange(0, k));
        assert(prefix.subrange(k + 1, i) =~= s.subrange(k + 1, i));
    } else {
        assert(prefix =~= s.subrange(k + 1, i));
    }
}

/// Appends an expression whose operands are already in the arena.
fn push_expression(arena: &mut Arena<Expression>, e: Expression) -> (r: NodeRef)
    requires
        well_formed(old(arena)@),
        refers_within(old(arena)@, e),
        old(arena)@.len() < usize::MAX,
    ensures
        well_formed(final(arena)@),
        r.index == old(arena)@.len(),
        final(arena)@.len() == old(arena)@.len() + 1,
        final(arena)@.subrange(0, r.index as int) == old(arena)@,
        tree_at(final(arena)@, r.index as int) == crate::expressions::tree_of(old(arena)@, e),
{
    let r = arena.add_node(e);
    proof {
        let nodes = old(arena)@;
        let more = arena@;
        assert forall|i: int| 0 <= i < more.len() implies #[trigger] refers_within(
            more.subrange(0, i),
            more[i].val(),
        ) by {
            if i < nodes.len() {
                assert(more[i] == nodes[i]);
                assert(refers_within(nodes.subrange(0, i), nodes[i].val()));
            }
        }
        if let Expression::Operation(op, a, b) = e {
            lemma_tree_at_stable(nodes, more, a.index as int);
            lemma_tree_at_stable(nodes, more, b.index as int);
        }
    }
    r
}

/// Builds the expression tree of a token sequence in a new arena and returns
/// the arena with the handle of the root. `*` and `/` bind tighter than `+`
/// and `-`, and operators of one level group from the left.
#[verifier::rlimit(60)]
pub fn parse(tokens: &Vec<Token>) -> (r: Result<(Arena<Expression>, NodeRef), ParseError>)
    ensures
        match parse_error(tokens@) {
            Some(e) => r == Err::<(Arena<Expression>, NodeRef), ParseError>(e),
            None => r matches Ok((arena, root)) && {
                &&& well_formed(arena@)
                &&& arena.contains(root)
                &&& tree_at(arena@, root.index as int) == expr_tree(tokens@)
            },
        },
{
    let ghost s = tokens@;
    let n = tokens.len();
    if n == 0 {
        return Err(ParseError::Empty);
    }
    let first = match tokens[0] {
        Token::ValueToken(d) => d,
        Token::OperationToken(_) => {
            proof {
                lemma_misplaced_step(s, 0);
                lemma_misplaced_stays(s, 1);
            }
            return Err(ParseError::MissingOperand);
        },
    };
    proof {
        lemma_misplaced_step(s, 0);
    }
    let mut arena: Arena<Expression> = Arena::new();
    let mut term = push_expression(&mut arena, Expression::Value(first));
    let mut pending: Option<(NodeRef, OperationType)> = None;
    let mut i: usize = 1;
    while i < n
        invariant
            n == s.len(),
            s == tokens@,
            1 <= i <= n,
            i % 2 == 1,
            first_misplaced(s.subrange(0, i as int)) is None,
            arena@.len() <= i,
            pending is Some ==> arena@.len() < i,
            well_formed(arena@),
            arena.contains(term),
            tree_at(arena@, term.index as int) == term_tree(
                s.subrange(last_additive(s.subrange(0, i as int)) + 1, i as int),
            ),
            match pending {
                None => last_additive(s.subrange(0, i as int)) == -1,
                Some((acc, op)) => {
                    let k = last_additive(s.subrange(0, i as int));
                    &&& 0 <= k < i
                    &&& arena.contains(acc)
                    &&& op == op_of(s[k])
                    &&& tree_at(arena@, acc.index as int) == expr_tree(s.subrange(0, k))
                },
            },
        decreases n - i,
    {
        let ghost prefix = s.subrange(0, i as int);
        let ghost k = last_additive(prefix);
        proof {
            lemma_last_additive_bounds(prefix);
            lemma_misplaced_step(s, i as int);
        }
        let op = match tokens[i] {
            Token::OperationToken(op) => op,
            Token::ValueToken(_) => {
                proof {
                    lemma_misplaced_stays(s, i + 1);
                }
                return Err(ParseError::MissingOperator);
            },
        };
        if i + 1 == n {
            assert(s.subrange(0, i + 1) =~= s);
            return Err(ParseError::MissingOperand);
        }
        proof {
            lemma_misplaced_step(s, i + 1);
        }
        let d = match tokens[i + 1] {
            Token::ValueToken(d) => d,
            Token::OperationToken(_) => {
                proof {
                    lemma_misplaced_stays(s, i + 2);
                }
                return Err(ParseError::MissingOperand);
            },
        };
        let ghost before = arena@;
        let leaf = push_expression(&mut arena, Expression::Value(d));
        proof {
            lemma_tree_at_stable(before, arena@, term.index as int);
            if let Some((acc, _)) = pending {
                lemma_tree_at_stable(before, arena@, acc.index as int);
            }
        }
        let ghost mid = arena@;
        if op == OperationType::Multiply || op == OperationType::Divide {
            proof {
                lemma_multiplicative_step(s, i as int);
            }
            term = push_expression(&mut arena, Expression::Operation(op, term, leaf));
            proof {
                if let Some((acc, _)) = pending {
                    lemma_tree_at_stable(mid, arena@, acc.index as int);
                }
            }
        } else {
            proof {
                lemma_additive_step(s, i as int);
            }
            let acc = match pending {
                None => term,
                Some((acc, acc_op)) => push_expression(
                    &mut arena,
                    Expression::Operation(acc_op, acc, term),
                ),
            };
            proof {
                if pending is Some {
                    lemma_tree_at_stable(mid, arena@, leaf.index as int);
                }
            }
            pending = Some((acc, op));
            term = leaf;
        }
        i = i + 2;
    }
    assert(s.subrange(0, n as int) =~= s);
    match pending {
        None => Ok((arena, term)),
        Some((acc, op)) => {
            let root = push_expression(&mut arena, Expression::Operation(op, acc, term));
            Ok((arena, root))
        },
    }
}

} // verus!
