use vstd::prelude::*;

use crate::ast::{operator_of, ASTNodeValue, Operator};
use crate::engine::{
    element_number, literal_assignment, postfix_numbers, postfix_value, same_vars, scalar_arithmetic, valid_result,
    Engine,
};
use crate::matrix::operator_value;
use crate::errors::{EvaluationError, ParsingError, TokenizationError};
use crate::lexer::Lexer;
use crate::parser::{binary_postfix, operand_node, pops_before, simple_statement, ternary_postfix, Parser};
use crate::runtime::RuntimeVal;
use crate::scalar::Scalar;
use crate::token::{is_name_text, Token};

verus! {

/// Why a line could not be run.
#[derive(Debug, PartialEq)]
pub enum StatementError {
    Tokenization(TokenizationError),
    Parsing(ParsingError),
    Evaluation(EvaluationError),
}

/// A statement `a op b` of two numeric literals and an arithmetic operator
/// other than `=` evaluates to a number in every environment: `Parser::parse`
/// turns it into `binary_postfix`, and `Engine::evaluate` gives a number for
/// every postfix sequence of numbers and arithmetic operators.
pub proof fn lemma_binary_statement_is_arithmetic<T>(tokens: Seq<Token<T>>, start: int, e: Engine<T>)
    requires
        simple_statement(tokens, start, start + 3),
        tokens[start] is NumericLiteral,
        tokens[start + 2] is NumericLiteral,
        operator_of(tokens[start + 1]) != Some(Operator::Assign),
    ensures
        scalar_arithmetic(binary_postfix(tokens, start), e),
{
    assert(operator_of(tokens[start + 1]) is Some);
}

/// A statement `x = n` of a name and a numeric literal binds `x` to `n`:
/// `Parser::parse` turns it into `binary_postfix`, and `Engine::evaluate`
/// binds the name to the number for that postfix sequence and returns the
/// name.
pub proof fn lemma_assignment_statement<T>(tokens: Seq<Token<T>>, start: int)
    requires
        simple_statement(tokens, start, start + 3),
        tokens[start] is Identifier,
        tokens[start + 1] == Token::<T>::Equal,
        tokens[start + 2] is NumericLiteral,
    ensures
        literal_assignment(binary_postfix(tokens, start)),
{
}

/// The number of `a op b` is `op` applied to the numbers of `a` and `b`.
pub proof fn lemma_binary_statement_value<T: Scalar>(tokens: Seq<Token<T>>, start: int, e: Engine<T>)
    requires
        simple_statement(tokens, start, start + 3),
    ensures
        postfix_value(binary_postfix(tokens, start), e) == operator_value(
            operator_of(tokens[start + 1])->0,
            element_number(operand_node(tokens[start]), e),
            element_number(operand_node(tokens[start + 2]), e),
        ),
{
    let post = binary_postfix(tokens, start);
    reveal_with_fuel(postfix_numbers, 4);
    assert(post.drop_last().drop_last().drop_last() =~= Seq::<ASTNodeValue<T>>::empty());
    assert(post.drop_last() =~= seq![post[0], post[1]]);
    assert(post.drop_last().drop_last() =~= seq![post[0]]);
}

/// The number of `a op1 b op2 c` follows precedence: `a op1 (b op2 c)`
/// when `op1` is not applied first (`pops_before(op2, op1)` fails), else
/// `(a op1 b) op2 c`. So `2+3*4` is `2+(3*4)` and `8-4-2` is `(8-4)-2`.
pub proof fn lemma_ternary_statement_value<T: Scalar>(tokens: Seq<Token<T>>, start: int, e: Engine<T>)
    requires
        simple_statement(tokens, start, start + 5),
    ensures
        ({
            let op1 = operator_of(tokens[start + 1])->0;
            let op2 = operator_of(tokens[start + 3])->0;
            let a = element_number(operand_node(tokens[start]), e);
            let b = element_number(operand_node(tokens[start + 2]), e);
            let c = element_number(operand_node(tokens[start + 4]), e);
            postfix_value(ternary_postfix(tokens, start), e) == if pops_before(op2, op1) {
                operator_value(op2, operator_value(op1, a, b), c)
            } else {
                operator_value(op1, a, operator_value(op2, b, c))
            }
        }),
{
    let post = ternary_postfix(tokens, start);
    reveal_with_fuel(postfix_numbers, 6);
    assert(post.drop_last() =~= post.subrange(0, 4));
    assert(post.subrange(0, 4).drop_last() =~= post.subrange(0, 3));
    assert(post.subrange(0, 3).drop_last() =~= post.subrange(0, 2));
    assert(post.subrange(0, 2).drop_last() =~= post.subrange(0, 1));
    assert(post.subrange(0, 1).drop_last() =~= Seq::<ASTNodeValue<T>>::empty());
}

/// Evaluating arithmetic gives the same number in two environments that
/// bind the same variables to the same values; in particular evaluating a
/// node twice against an unchanged environment gives the same number
/// (`Engine::evaluate` returns `postfix_value`).
pub proof fn lemma_postfix_value_depends_on_variables<T: Scalar>(
    post: Seq<ASTNodeValue<T>>,
    e1: Engine<T>,
    e2: Engine<T>,
)
    requires
        same_vars(e1, e2),
    ensures
        postfix_value(post, e1) == postfix_value(post, e2),
{
    lemma_postfix_numbers_depend_on_variables(post, e1, e2, Seq::<T>::empty());
}

proof fn lemma_postfix_numbers_depend_on_variables<T: Scalar>(
    post: Seq<ASTNodeValue<T>>,
    e1: Engine<T>,
    e2: Engine<T>,
    stack: Seq<T>,
)
    requires
        same_vars(e1, e2),
    ensures
        postfix_numbers(post, e1, stack) == postfix_numbers(post, e2, stack),
    decreases post.len(),
{
    if post.len() > 0 {
        let x = post.last();
        assert(element_number(x, e1) == element_number(x, e2)) by {
            if let ASTNodeValue::Variable(name) = x {
                assert(e1.var(name@) == e2.var(name@));
            }
        }
        let next = match x {
            ASTNodeValue::Operator(op) => if stack.len() >= 2 {
                stack.subrange(0, stack.len() - 2).push(
                    operator_value(op, stack[stack.len() - 2], stack[stack.len() - 1]),
                )
            } else {
                stack
            },
            _ => stack.push(element_number(x, e1)),
        };
        lemma_postfix_numbers_depend_on_variables(post.drop_last(), e1, e2, next);
    }
}

impl<T: Scalar> Engine<T> {
    /// Reads the first statement of `line` and evaluates it. A failure at
    /// any stage leaves every variable as it was. A line that is one name
    /// gives the name's value, or `NonexistantVar` when it is not bound.
    pub fn parse_and_eval(&mut self, line: &str) -> (r: Result<RuntimeVal<T>, StatementError>)
        requires
            old(self).wf(),
        ensures
            final(self).wf(),
            r is Err ==> same_vars(*old(self), *final(self)),
            r matches Ok(v) ==> valid_result(*final(self), v),
            is_name_text(line@) ==> match old(self).var(line@) {
                Some(x) => r matches Ok(v) && v@ == x && same_vars(*old(self), *final(self)),
                None => (r matches Err(StatementError::Evaluation(EvaluationError::NonexistantVar(name)))
                    && name@ == line@),
            },
    {
        let mut lexer = Lexer::new(line);
        let tokens = match lexer.tokenize() {
            Ok(tokens) => tokens,
            Err(e) => {
                return Err(StatementError::Tokenization(e));
            },
        };
        proof {
            if is_name_text(line@) {
                assert(tokens@[0] is Identifier);
                assert(simple_statement(tokens@, 0, 1));
            }
        }
        let mut parser = Parser::new(tokens);
        let node = match parser.parse() {
            Ok(node) => node,
            Err(e) => {
                return Err(StatementError::Parsing(e));
            },
        };
        match self.evaluate(&node) {
            Ok(v) => Ok(v),
            Err(e) => Err(StatementError::Evaluation(e)),
        }
    }
}

} // verus!
