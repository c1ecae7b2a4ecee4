use crate::expressions::{DivideError, eval, fits, lemma_tree_at_node};
use crate::parser::{ParseError, TokenizeError, expr_tree, parse, parse_error, parse_line, tokenize};
use vstd::prelude::*;

verus! {

/// Why a line has no value.
#[derive(Clone, Copy, Debug, PartialEq, Eq, Structural)]
pub enum LineError {
    Tokenize(TokenizeError),
    Parse(ParseError),
    Divide(DivideError),
    /// A value computed on the way does not fit in an `i32`.
    Overflow,
}

/// What a line evaluates to: its tokens, parsed with the usual precedence
/// and grouping from the left, evaluated over the integers.
pub open spec fn line_outcome(s: Seq<char>) -> Result<i32, LineError> {
    match tokenize(s) {
        Err(e) => Err(LineError::Tokenize(e)),
        Ok(tokens) => match parse_error(tokens) {
            Some(e) => Err(LineError::Parse(e)),
            None => {
                let t = expr_tree(tokens);
                if !fits(t) {
                    Err(LineError::Overflow)
                } else {
                    match eval(t) {
                        Ok(v) => Ok(v as i32),
                        Err(e) => Err(LineError::Divide(e)),
                    }
                }
            },
        },
    }
}

/// Tokenizes, parses and evaluates one line, in an arena of its own.
pub fn evaluate_line(line: &str) -> (r: Result<i32, LineError>)
    ensures
        r == line_outcome(line@),
{
    let tokens = match parse_line(line) {
        Ok(tokens) => tokens,
        Err(e) => return Err(LineError::Tokenize(e)),
    };
    let (arena, root) = match parse(&tokens) {
        Ok(parsed) => parsed,
        Err(e) => return Err(LineError::Parse(e)),
    };
    proof {
        lemma_tree_at_node(arena@, root.index as int);
    }
    match arena.get(root).value().checked_interpret(&arena) {
        None => Err(LineError::Overflow),
        Some(Ok(v)) => Ok(v),
        Some(Err(e)) => Err(LineError::Divide(e)),
    }
}

/// Evaluates each line on its own, keeping the order of the lines.
pub fn evaluate_lines(lines: &Vec<String>) -> (r: Vec<Result<i32, LineError>>)
    ensures
        r@.len() == lines@.len(),
        forall|i: int| 0 <= i < lines@.len() ==> r@[i] == line_outcome(#[trigger] lines@[i]@),
{
    let mut results: Vec<Result<i32, LineError>> = Vec::new();
    let mut i: usize = 0;
    while i < lines.len()
        invariant
            i <= lines@.len(),
            results@.len() == i,
            forall|j: int| 0 <= j < i ==> results@[j] == line_outcome(#[trigger] lines@[j]@),
        decreases lines@.len() - i,
    {
        results.push(evaluate_line(lines[i].as_str()));
        i = i + 1;
    }
    results
}

} // verus!
