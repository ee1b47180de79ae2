use vstd::prelude::*;

use crate::ast::{
    operator_of, lemma_postfix_run_prepend, postfix_run, postfix_step, precedence_of, rectangular, stores_in_ans, wf_value,
    ASTNode, ASTNodeValue, Operator,
};
use crate::errors::ParsingError;
use crate::scalar::Scalar;
use crate::token::Token;

verus! {

/// The number of operators (as opposed to open-parenthesis markers) on the
/// operator stack.
pub open spec fn count_ops(s: Seq<Option<Operator>>) -> nat
    decreases s.len(),
{
    if s.len() == 0 {
        0
    } else {
        count_ops(s.drop_last()) + if s.last() is Some {
            1nat
        } else {
            0nat
        }
    }
}

/// The flat part of a postfix sequence under construction: no nested
/// sequence, and matrix literals well formed.
pub open spec fn flat_wf<T>(s: Seq<ASTNodeValue<T>>) -> bool {
    forall|k: int|
        0 <= k < s.len() ==> !(#[trigger] s[k] is ArithmaticExpr) && (s[k] is Matrix ==> wf_value(
            s[k],
        ))
}

/// A token that is a number or a name.
pub open spec fn is_operand_token<T>(t: Token<T>) -> bool {
    t is NumericLiteral || t is Identifier
}

/// The expression node of a number or name token.
pub open spec fn operand_node<T>(t: Token<T>) -> ASTNodeValue<T> {
    match t {
        Token::NumericLiteral(n) => ASTNodeValue::Number(n),
        Token::Identifier(name) => ASTNodeValue::Variable(name),
        _ => ASTNodeValue::Operator(Operator::Assign),
    }
}

/// The postfix sequence, stored back to front, of the binary statement
/// `tokens[start] tokens[start + 1] tokens[start + 2]`.
pub open spec fn binary_postfix<T>(tokens: Seq<Token<T>>, start: int) -> Seq<ASTNodeValue<T>> {
    seq![
        ASTNodeValue::Operator(operator_of(tokens[start + 1])->0),
        operand_node(tokens[start + 2]),
        operand_node(tokens[start]),
    ]
}

/// Whether a pending operator `top` is applied before an incoming operator
/// `incoming`: it binds tighter, or as tightly and is not `=` (the
/// arithmetic operators group to the left, `=` to the right).
pub open spec fn pops_before(incoming: Operator, top: Operator) -> bool {
    precedence_of(incoming) < precedence_of(top) || (precedence_of(incoming) == precedence_of(top) && incoming
        != Operator::Assign)
}

/// The postfix sequence, stored back to front, of the statement
/// `a op1 b op2 c` at `tokens[start..start + 5]`: `op1` is applied first
/// when `pops_before(op2, op1)`, and `op2` first otherwise.
pub open spec fn ternary_postfix<T>(tokens: Seq<Token<T>>, start: int) -> Seq<ASTNodeValue<T>> {
    let a = operand_node(tokens[start]);
    let b = operand_node(tokens[start + 2]);
    let c = operand_node(tokens[start + 4]);
    let op1 = operator_of(tokens[start + 1])->0;
    let op2 = operator_of(tokens[start + 3])->0;
    if pops_before(op2, op1) {
        seq![ASTNodeValue::Operator(op2), c, ASTNodeValue::Operator(op1), b, a]
    } else {
        seq![ASTNodeValue::Operator(op1), ASTNodeValue::Operator(op2), c, b, a]
    }
}

/// Multiplication and division bind tighter than addition and subtraction
/// in `a op1 b op2 c`, on either side: an additive `op1` before a
/// multiplicative `op2` gives `a (b op2 c) op1` (postfix `a b c op2 op1`),
/// and a multiplicative `op1` before an additive `op2` gives
/// `(a op1 b) op2 c` (postfix `a b op1 c op2`).
pub proof fn lemma_multiplication_binds_tighter<T>(tokens: Seq<Token<T>>, start: int)
    requires
        simple_statement(tokens, start, start + 5),
    ensures
        ({
            let op1 = operator_of(tokens[start + 1])->0;
            let op2 = operator_of(tokens[start + 3])->0;
            let a = operand_node(tokens[start]);
            let b = operand_node(tokens[start + 2]);
            let c = operand_node(tokens[start + 4]);
            &&& (op1 == Operator::Add || op1 == Operator::Subtract) && (op2 == Operator::Multiply || op2
                == Operator::Divide) ==> ternary_postfix(tokens, start) == seq![
                ASTNodeValue::Operator(op1),
                ASTNodeValue::Operator(op2),
                c,
                b,
                a,
            ]
            &&& (op1 == Operator::Multiply || op1 == Operator::Divide) && (op2 == Operator::Add || op2
                == Operator::Subtract) ==> ternary_postfix(tokens, start) == seq![
                ASTNodeValue::Operator(op2),
                c,
                ASTNodeValue::Operator(op1),
                b,
                a,
            ]
        }),
{
}

/// A token that ends a statement.
pub open spec fn is_terminator<T>(t: Token<T>) -> bool {
    t is EndOfFile || t is EndOfLine || t is SemiColon
}

/// `tokens[start..end]` alternates numbers or names with binary operators,
/// starting and ending with a number or name, and is followed by the end of
/// the statement.
pub open spec fn simple_statement<T>(tokens: Seq<Token<T>>, start: int, end: int) -> bool {
    &&& 0 <= start < end <= tokens.len()
    &&& (end - start) % 2 == 1
    &&& forall|k: int|
        start <= k < end ==> if (k - start) % 2 == 0 {
            is_operand_token(#[trigger] tokens[k])
        } else {
            operator_of(tokens[k]) is Some
        }
    &&& end < tokens.len() ==> is_terminator(tokens[end])
}

/// `tokens[start..end]` alternates numbers or names with binary operators,
/// starting and ending with a number or name.
pub open spec fn operand_chain<T>(tokens: Seq<Token<T>>, start: int, end: int) -> bool {
    &&& 0 <= start < end <= tokens.len()
    &&& (end - start) % 2 == 1
    &&& forall|k: int|
        start <= k < end ==> if (k - start) % 2 == 0 {
            is_operand_token(#[trigger] tokens[k])
        } else {
            operator_of(tokens[k]) is Some
        }
}

/// An operand chain closed by a `)` that nothing opened.
pub open spec fn stray_close<T>(tokens: Seq<Token<T>>, start: int, end: int) -> bool {
    operand_chain(tokens, start, end) && end < tokens.len() && tokens[end] is CloseParen
}

/// A `(` that is never closed: it opens a simple statement.
pub open spec fn stray_open<T>(tokens: Seq<Token<T>>, start: int, end: int) -> bool {
    0 <= start < tokens.len() && tokens[start] is OpenParen && simple_statement(tokens, start + 1, end)
}

/// A chain closed by a stray `)` has one end.
pub proof fn lemma_stray_close_end<T>(tokens: Seq<Token<T>>, start: int, e1: int, e2: int)
    requires
        stray_close(tokens, start, e1),
        stray_close(tokens, start, e2),
    ensures
        e1 == e2,
{
    if e1 < e2 {
        assert(start <= e1 < e2);
        assert(tokens[e1] is CloseParen);
    } else if e2 < e1 {
        assert(start <= e2 < e1);
        assert(tokens[e2] is CloseParen);
    }
}

/// A token that may follow a one-token cell of a matrix literal without
/// extending it into an expression.
pub open spec fn ends_cell<T>(t: Token<T>) -> bool {
    operator_of(t) is None && !(t is CloseParen)
}

/// `v` is a matrix literal with these rows of cells.
pub open spec fn literal_node<T>(v: ASTNodeValue<T>, rows: Seq<Seq<ASTNodeValue<T>>>) -> bool {
    match v {
        ASTNodeValue::Matrix(m) => mat_values(m@) == rows,
        _ => false,
    }
}

/// The expressions of a row of cells.
pub open spec fn row_values<T>(r: Seq<ASTNode<T>>) -> Seq<ASTNodeValue<T>> {
    r.map_values(|c: ASTNode<T>| c.value)
}

/// The expressions of the rows of a matrix literal.
pub open spec fn mat_values<T>(m: Seq<Vec<ASTNode<T>>>) -> Seq<Seq<ASTNodeValue<T>>> {
    m.map_values(|r: Vec<ASTNode<T>>| row_values(r@))
}

/// The rest of a matrix literal from `tokens[k]` on, whose cells are single
/// numbers or names, given the rows read so far, the row being read and
/// whether a comma was just read. `Ok` holds the rows and the position
/// after `]`. A comma with no cell before it is `EmptyMatrixElement`; a row
/// of another length than the row before it is `DimensionsMismatch(before,
/// this)`; the end of the tokens before `]` is `IncompleteStatement`. `None`
/// where the literal has another form.
pub open spec fn matrix_scan<T>(
    tokens: Seq<Token<T>>,
    k: int,
    rows: Seq<Seq<ASTNodeValue<T>>>,
    row: Seq<ASTNodeValue<T>>,
    after_comma: bool,
) -> Option<(Result<Seq<Seq<ASTNodeValue<T>>>, ParsingError>, int)>
    decreases tokens.len() - k,
{
    if k < 0 {
        None
    } else if k >= tokens.len() {
        Some((Err(ParsingError::IncompleteStatement), k))
    } else {
        let mismatch = row.len() > 0 && rows.len() > 0 && rows.last().len() != row.len();
        let error = ParsingError::DimensionsMismatch(rows.last().len() as usize, row.len() as usize);
        match tokens[k] {
            Token::Comma => if after_comma || row.len() == 0 {
                Some((Err(ParsingError::EmptyMatrixElement), k))
            } else {
                matrix_scan(tokens, k + 1, rows, row, true)
            },
            Token::SemiColon => if mismatch {
                Some((Err(error), k + 1))
            } else if row.len() > 0 {
                matrix_scan(tokens, k + 1, rows.push(row), seq![], false)
            } else {
                matrix_scan(tokens, k + 1, rows, row, false)
            },
            Token::CloseBracket => if mismatch {
                Some((Err(error), k + 1))
            } else if row.len() > 0 {
                Some((Ok(rows.push(row)), k + 1))
            } else {
                Some((Ok(rows), k + 1))
            },
            Token::EndOfFile => Some((Err(ParsingError::IncompleteStatement), k)),
            Token::NumericLiteral(_) | Token::Identifier(_) => if k + 1 < tokens.len() && !ends_cell(tokens[k + 1]) {
                None
            } else {
                matrix_scan(tokens, k + 1, rows, row.push(operand_node(tokens[k])), false)
            },
            _ => None,
        }
    }
}

/// A simple statement has one end.
pub proof fn lemma_simple_statement_end<T>(tokens: Seq<Token<T>>, start: int, e1: int, e2: int)
    requires
        simple_statement(tokens, start, e1),
        simple_statement(tokens, start, e2),
    ensures
        e1 == e2,
{
    if e1 < e2 {
        assert(is_terminator(tokens[e1]));
        assert(start <= e1 < e2);
    } else if e2 < e1 {
        assert(is_terminator(tokens[e2]));
        assert(start <= e2 < e1);
    }
}

/// Reads one statement at a time from a sequence of tokens.
pub struct Parser<T> {
    tokens: Vec<Token<T>>,
    pos: usize,
}

impl<T: Scalar> Parser<T> {
    pub closed spec fn tokens(&self) -> Seq<Token<T>> {
        self.tokens@
    }

    /// The number of tokens read so far.
    pub closed spec fn position(&self) -> nat {
        self.pos as nat
    }

    pub closed spec fn wf(&self) -> bool {
        self.pos <= self.tokens@.len()
    }

    pub fn new(tokens: Vec<Token<T>>) -> (r: Self)
        ensures
            r.wf(),
            r.tokens() == tokens@,
            r.position() == 0,
    {
        Parser { tokens, pos: 0 }
    }

    /// Parses the next statement: an expression followed by the end of the
    /// line, the end of input or a semicolon. A semicolon turns showing the
    /// result off. On success the expression is well formed (see
    /// `wf_value`), and it is stored as `ans` exactly when it is a literal or
    /// a computation that assigns nothing. A statement of numbers and names
    /// joined by binary operators always parses; with one or two operators
    /// its postfix sequence is `binary_postfix` or `ternary_postfix`.
    pub fn parse(&mut self) -> (r: Result<ASTNode<T>, ParsingError>)
        requires
            old(self).wf(),
        ensures
            final(self).wf(),
            final(self).tokens() == old(self).tokens(),
            final(self).position() >= old(self).position(),
            match r {
                Ok(node) => {
                    &&& wf_value(node.value)
                    &&& node.store_in_ans == stores_in_ans(node.value)
                    &&& final(self).position() > old(self).position()
                    &&& node.print_result == !(final(self).tokens()[final(self).position() - 1] is SemiColon)
                },
                Err(_) => true,
            },
            final(self).position() <= final(self).tokens().len(),
            old(self).position() < old(self).tokens().len() && old(self).tokens()[old(self).position() as int] is OpenBracket
                ==> match matrix_scan(old(self).tokens(), old(self).position() + 1int, seq![], seq![], false) {
                Some((Ok(rows), e)) => (e >= old(self).tokens().len() || is_terminator(old(self).tokens()[e])) ==> (r matches Ok(
                    node) && literal_node(node.value, rows)),
                Some((Err(err), _)) => r == Err::<ASTNode<T>, ParsingError>(err),
                None => true,
            },
            old(self).position() >= old(self).tokens().len() || is_terminator(
                old(self).tokens()[old(self).position() as int],
            ) ==> r == Err::<ASTNode<T>, ParsingError>(ParsingError::UnexpectedEndOfInput),
            old(self).position() < old(self).tokens().len() && operator_of(old(self).tokens()[old(self).position() as int])
                is Some ==> r == Err::<ASTNode<T>, ParsingError>(ParsingError::InvalidArithmaticExpression),
            old(self).position() + 1 < old(self).tokens().len() && is_operand_token(
                old(self).tokens()[old(self).position() as int],
            ) && is_operand_token(old(self).tokens()[old(self).position() + 1int]) ==> r == Err::<ASTNode<T>, ParsingError>(
                ParsingError::InvalidArithmaticExpression,
            ),
            forall|end: int| #[trigger]
                simple_statement(old(self).tokens(), old(self).position() as int, end) ==> final(self).position() == if end
                    < old(self).tokens().len() {
                    end + 1
                } else {
                    end
                },
            forall|e: int| #[trigger]
                stray_close(old(self).tokens(), old(self).position() as int, e) ==> r == Err::<ASTNode<T>, ParsingError>(
                    ParsingError::UnmatchedCloseParen,
                ),
            forall|e: int| #[trigger]
                stray_open(old(self).tokens(), old(self).position() as int, e) ==> r == Err::<ASTNode<T>, ParsingError>(
                    ParsingError::UnmatchedOpenParen,
                ),
            forall|end: int| #[trigger]
                simple_statement(old(self).tokens(), old(self).position() as int, end) ==> r is Ok,
            simple_statement(old(self).tokens(), old(self).position() as int, old(self).position() + 1int) ==> (r matches Ok(
                node) && node.value == operand_node(old(self).tokens()[old(self).position() as int])),
            simple_statement(old(self).tokens(), old(self).position() as int, old(self).position() + 3int) ==> (r matches Ok(
                node) && node.value matches ASTNodeValue::ArithmaticExpr(post) && post@ == binary_postfix(
                old(self).tokens(),
                old(self).position() as int,
            )),
            simple_statement(old(self).tokens(), old(self).position() as int, old(self).position() + 5int) ==> (r matches Ok(
                node) && node.value matches ASTNodeValue::ArithmaticExpr(post) && post@ == ternary_postfix(
                old(self).tokens(),
                old(self).position() as int,
            )),
    {
        self.parse_stmt()
    }

    fn parse_stmt(&mut self) -> (r: Result<ASTNode<T>, ParsingError>)
        requires
            old(self).wf(),
        ensures
            final(self).wf(),
            final(self).tokens() == old(self).tokens(),
            final(self).position() >= old(self).position(),
            match r {
                Ok(node) => {
                    &&& wf_value(node.value)
                    &&& node.store_in_ans == stores_in_ans(node.value)
                    &&& final(self).position() > old(self).position()
                    &&& node.print_result == !(final(self).tokens()[final(self).position() - 1] is SemiColon)
                },
                Err(_) => true,
            },
            final(self).position() <= final(self).tokens().len(),
            old(self).position() < old(self).tokens().len() && old(self).tokens()[old(self).position() as int] is OpenBracket
                ==> match matrix_scan(old(self).tokens(), old(self).position() + 1int, seq![], seq![], false) {
                Some((Ok(rows), e)) => (e >= old(self).tokens().len() || is_terminator(old(self).tokens()[e])) ==> (r matches Ok(
                    node) && literal_node(node.value, rows)),
                Some((Err(err), _)) => r == Err::<ASTNode<T>, ParsingError>(err),
                None => true,
            },
            old(self).position() >= old(self).tokens().len() || is_terminator(
                old(self).tokens()[old(self).position() as int],
            ) ==> r == Err::<ASTNode<T>, ParsingError>(ParsingError::UnexpectedEndOfInput),
            old(self).position() < old(self).tokens().len() && operator_of(old(self).tokens()[old(self).position() as int])
                is Some ==> r == Err::<ASTNode<T>, ParsingError>(ParsingError::InvalidArithmaticExpression),
            old(self).position() + 1 < old(self).tokens().len() && is_operand_token(
                old(self).tokens()[old(self).position() as int],
            ) && is_operand_token(old(self).tokens()[old(self).position() + 1int]) ==> r == Err::<ASTNode<T>, ParsingError>(
                ParsingError::InvalidArithmaticExpression,
            ),
            forall|end: int| #[trigger]
                simple_statement(old(self).tokens(), old(self).position() as int, end) ==> final(self).position() == if end
                    < old(self).tokens().len() {
                    end + 1
                } else {
                    end
                },
            forall|e: int| #[trigger]
                stray_close(old(self).tokens(), old(self).position() as int, e) ==> r == Err::<ASTNode<T>, ParsingError>(
                    ParsingError::UnmatchedCloseParen,
                ),
            forall|e: int| #[trigger]
                stray_open(old(self).tokens(), old(self).position() as int, e) ==> r == Err::<ASTNode<T>, ParsingError>(
                    ParsingError::UnmatchedOpenParen,
                ),
            forall|end: int| #[trigger]
                simple_statement(old(self).tokens(), old(self).position() as int, end) ==> r is Ok,
            simple_statement(old(self).tokens(), old(self).position() as int, old(self).position() + 1int) ==> (r matches Ok(
                node) && node.value == operand_node(old(self).tokens()[old(self).position() as int])),
            simple_statement(old(self).tokens(), old(self).position() as int, old(self).position() + 3int) ==> (r matches Ok(
                node) && node.value matches ASTNodeValue::ArithmaticExpr(post) && post@ == binary_postfix(
                old(self).tokens(),
                old(self).position() as int,
            )),
            simple_statement(old(self).tokens(), old(self).position() as int, old(self).position() + 5int) ==> (r matches Ok(
                node) && node.value matches ASTNodeValue::ArithmaticExpr(post) && post@ == ternary_postfix(
                old(self).tokens(),
                old(self).position() as int,
            )),
    {
        let mut res = self.parse_expr(false)?;
        if self.pos < self.tokens.len() {
            match &self.tokens[self.pos] {
                Token::EndOfFile | Token::EndOfLine => {
                    self.pos = self.pos + 1;
                    res.print_result = true;
                },
                Token::SemiColon => {
                    self.pos = self.pos + 1;
                    res.print_result = false;
                },
                t => {
                    return Err(
                        ParsingError::UnexpectedToken {
                            expected: Some(Token::<T>::EndOfFile.stringify()),
                            found: Some(t.stringify()),
                        },
                    );
                },
            }
        } else {
            res.print_result = true;
        }
        res.store_in_ans =
        match &res.value {
            ASTNodeValue::Number(_) => true,
            ASTNodeValue::Matrix(_) => true,
            ASTNodeValue::ArithmaticExpr(expr) => !contains_assign(expr),
            ASTNodeValue::Variable(_) => false,
            ASTNodeValue::Operator(op) => {
                return Err(
                    ParsingError::UnexpectedToken {
                        expected: None,
                        found: Some(op.tokenize::<T>().stringify()),
                    },
                );
            },
        };
        Ok(res)
    }

    /// Parses one expression. An empty expression, a leading operator and
    /// (outside a matrix) two operands in a row are rejected at once. A
    /// statement that is a matrix literal is read by `parse_matrix` alone;
    /// any other expression, including one that starts with a matrix
    /// literal, by `parse_arithmatic_expr`.
    fn parse_expr(&mut self, in_matrix: bool) -> (r: Result<ASTNode<T>, ParsingError>)
        requires
            old(self).wf(),
        ensures
            final(self).wf(),
            final(self).tokens() == old(self).tokens(),
            final(self).position() >= old(self).position(),
            match r {
                Ok(node) => {
                    &&& wf_value(node.value)
                    &&& !node.store_in_ans
                    &&& !node.print_result
                    &&& final(self).position() > old(self).position()
                    &&& !(final(self).tokens()[final(self).position() - 1] is SemiColon)
                },
                Err(_) => true,
            },
            forall|end: int|
                !in_matrix && #[trigger] simple_statement(old(self).tokens(), old(self).position() as int, end) ==> (r is Ok
                    && final(self).position() == end),
            !in_matrix && simple_statement(old(self).tokens(), old(self).position() as int, old(self).position() + 3int) ==> (r matches Ok(
                node) && node.value matches ASTNodeValue::ArithmaticExpr(post) && post@ == binary_postfix(
                old(self).tokens(),
                old(self).position() as int,
            )),
            !in_matrix && simple_statement(old(self).tokens(), old(self).position() as int, old(self).position() + 5int) ==> (r matches Ok(
                node) && node.value matches ASTNodeValue::ArithmaticExpr(post) && post@ == ternary_postfix(
                old(self).tokens(),
                old(self).position() as int,
            )),
            !in_matrix && simple_statement(old(self).tokens(), old(self).position() as int, old(self).position() + 1int) ==> (r matches Ok(
                node) && node.value == operand_node(old(self).tokens()[old(self).position() as int])),
            forall|e: int|
                !in_matrix && #[trigger] stray_close(old(self).tokens(), old(self).position() as int, e) ==> r == Err::<
                    ASTNode<T>,
                    ParsingError,
                >(ParsingError::UnmatchedCloseParen),
            forall|e: int|
                !in_matrix && #[trigger] stray_open(old(self).tokens(), old(self).position() as int, e) ==> r == Err::<
                    ASTNode<T>,
                    ParsingError,
                >(ParsingError::UnmatchedOpenParen),
            old(self).position() >= old(self).tokens().len() || is_terminator(
                old(self).tokens()[old(self).position() as int],
            ) ==> r == Err::<ASTNode<T>, ParsingError>(ParsingError::UnexpectedEndOfInput),
            old(self).position() < old(self).tokens().len() && operator_of(old(self).tokens()[old(self).position() as int])
                is Some ==> r == Err::<ASTNode<T>, ParsingError>(ParsingError::InvalidArithmaticExpression),
            !in_matrix && old(self).position() + 1 < old(self).tokens().len() && is_operand_token(
                old(self).tokens()[old(self).position() as int],
            ) && is_operand_token(old(self).tokens()[old(self).position() + 1int]) ==> r == Err::<ASTNode<T>, ParsingError>(
                ParsingError::InvalidArithmaticExpression,
            ),
            !in_matrix && old(self).position() < old(self).tokens().len() && old(self).tokens()[old(self).position() as int] is OpenBracket
                ==> match matrix_scan(old(self).tokens(), old(self).position() + 1int, seq![], seq![], false) {
                Some((Ok(rows), e)) => (e >= old(self).tokens().len() || is_terminator(old(self).tokens()[e])) ==> (r matches Ok(
                    node) && literal_node(node.value, rows) && final(self).position() == e),
                Some((Err(err), _)) => r == Err::<ASTNode<T>, ParsingError>(err),
                None => true,
            },
        decreases old(self).tokens@.len() - old(self).pos, 1int,
    {
        if self.pos >= self.tokens.len() {
            return Err(ParsingError::UnexpectedEndOfInput);
        }
        let first = &self.tokens[self.pos];
        if let Token::EndOfFile | Token::EndOfLine | Token::SemiColon = first {
            return Err(ParsingError::UnexpectedEndOfInput);
        }
        if let Token::Plus | Token::Minus | Token::Asterisk | Token::Slash | Token::Equal = first {
            return Err(ParsingError::InvalidArithmaticExpression);
        }
        if !in_matrix && self.pos + 1 < self.tokens.len() {
            let first_is_operand = match first {
                Token::NumericLiteral(_) | Token::Identifier(_) => true,
                _ => false,
            };
            let second_is_operand = match &self.tokens[self.pos + 1] {
                Token::NumericLiteral(_) | Token::Identifier(_) => true,
                _ => false,
            };
            if first_is_operand && second_is_operand {
                return Err(ParsingError::InvalidArithmaticExpression);
            }
        }
        if !in_matrix {
            if let Token::OpenBracket = first {
                let start = self.pos;
                self.pos = start + 1;
                let literal = self.parse_matrix();
                match literal {
                    Err(e) => {
                        return Err(e);
                    },
                    Ok(v) => {
                        let ends = if self.pos >= self.tokens.len() {
                            true
                        } else {
                            match &self.tokens[self.pos] {
                                Token::EndOfFile | Token::EndOfLine | Token::SemiColon => true,
                                _ => false,
                            }
                        };
                        if ends {
                            return Ok(ASTNode::from_value(v));
                        }
                        self.pos = start;
                    },
                }
            }
        }
        self.parse_arithmatic_expr(in_matrix)
    }
}

/// Places `v` in front of a postfix sequence stored back to front, so that
/// it is evaluated after everything already there.
fn push_front<T>(out: &mut Vec<ASTNodeValue<T>>, v: ASTNodeValue<T>)
    ensures
        final(out)@ == seq![v] + old(out)@,
        postfix_run(final(out)@, 0) == match postfix_run(old(out)@, 0) {
            Some(m) => postfix_step(v, m),
            None => None,
        },
{
    proof {
        lemma_postfix_run_prepend(v, out@, 0);
    }
    out.insert(0, v);
    proof {
        assert(out@ =~= seq![v] + old(out)@);
    }
}

/// Whether a postfix sequence holds an assignment.
fn contains_assign<T>(expr: &Vec<ASTNodeValue<T>>) -> (r: bool)
    ensures
        r == exists|k: int|
            0 <= k < expr@.len() && #[trigger] expr@[k] == ASTNodeValue::<T>::Operator(
                Operator::Assign,
            ),
{
    let mut i: usize = 0;
    while i < expr.len()
        invariant
            i <= expr@.len(),
            forall|k: int|
                0 <= k < i ==> #[trigger] expr@[k] != ASTNodeValue::<T>::Operator(Operator::Assign),
        decreases expr@.len() - i,
    {
        if let ASTNodeValue::Operator(Operator::Assign) = &expr[i] {
            return true;
        }
        i = i + 1;
    }
    false
}

/// Whether the operator stack holds an open-parenthesis marker.
fn has_open_paren(ops: &Vec<Option<Operator>>) -> (r: bool)
    ensures
        r == exists|k: int| 0 <= k < ops@.len() && #[trigger] ops@[k] is None,
{
    let mut i: usize = 0;
    while i < ops.len()
        invariant
            i <= ops@.len(),
            forall|k: int| 0 <= k < i ==> !(#[trigger] ops@[k] is None),
        decreases ops@.len() - i,
    {
        if ops[i].is_none() {
            return true;
        }
        i = i + 1;
    }
    false
}

} // verus!

verus! {

impl<T: Scalar> Parser<T> {
    /// Precedence climbing over the tokens of one expression. `out` holds
    /// the postfix sequence stored back to front, `ops` the pending
    /// operators with `None` for an open parenthesis. Inside a matrix
    /// literal an operand that follows an operand ends the cell.
    #[verifier::loop_isolation(false)]
    #[verifier::rlimit(100)]
    #[verifier::spinoff_prover]
    fn parse_arithmatic_expr(&mut self, in_matrix: bool) -> (r: Result<ASTNode<T>, ParsingError>)
        requires
            old(self).wf(),
        ensures
            final(self).wf(),
            final(self).tokens() == old(self).tokens(),
            final(self).position() >= old(self).position(),
            match r {
                Ok(node) => {
                    &&& wf_value(node.value)
                    &&& !node.store_in_ans
                    &&& !node.print_result
                    &&& final(self).position() > old(self).position()
                    &&& !(final(self).tokens()[final(self).position() - 1] is SemiColon)
                },
                Err(_) => true,
            },
            forall|end: int|
                !in_matrix && #[trigger] simple_statement(old(self).tokens(), old(self).position() as int, end) ==> (r is Ok
                    && final(self).position() == end),
            !in_matrix && simple_statement(old(self).tokens(), old(self).position() as int, old(self).position() + 3int) ==> (r matches Ok(
                node) && node.value matches ASTNodeValue::ArithmaticExpr(post) && post@ == binary_postfix(
                old(self).tokens(),
                old(self).position() as int,
            )),
            !in_matrix && simple_statement(old(self).tokens(), old(self).position() as int, old(self).position() + 5int) ==> (r matches Ok(
                node) && node.value matches ASTNodeValue::ArithmaticExpr(post) && post@ == ternary_postfix(
                old(self).tokens(),
                old(self).position() as int,
            )),
            !in_matrix && simple_statement(old(self).tokens(), old(self).position() as int, old(self).position() + 1int) ==> (r matches Ok(
                node) && node.value == operand_node(old(self).tokens()[old(self).position() as int])),
            forall|e: int|
                !in_matrix && #[trigger] stray_close(old(self).tokens(), old(self).position() as int, e) ==> r == Err::<
                    ASTNode<T>,
                    ParsingError,
                >(ParsingError::UnmatchedCloseParen),
            forall|e: int|
                !in_matrix && #[trigger] stray_open(old(self).tokens(), old(self).position() as int, e) ==> r == Err::<
                    ASTNode<T>,
                    ParsingError,
                >(ParsingError::UnmatchedOpenParen),
        decreases old(self).tokens@.len() - old(self).pos, 0int,
    {
        let mut out: Vec<ASTNodeValue<T>> = Vec::new();
        let mut ops: Vec<Option<Operator>> = Vec::new();
        let mut last_was_operand = false;
        let ghost start = self.pos;
        let ghost end: int = choose|e: int| simple_statement(self.tokens@, start as int, e);
        let ghost simple: bool = !in_matrix && simple_statement(self.tokens@, start as int, end);
        let ghost tk = self.tokens@;
        let ghost a = operand_node(tk[start as int]);
        let ghost b = operand_node(tk[start + 2]);
        let ghost c = operand_node(tk[start + 4]);
        let ghost op1 = operator_of(tk[start + 1]);
        let ghost op2 = operator_of(tk[start + 3]);
        let ghost o1 = ASTNodeValue::<T>::Operator(op1->0);
        let ghost o2 = ASTNodeValue::<T>::Operator(op2->0);
        let ghost one = simple && end == start + 3;
        let ghost two = simple && end == start + 5;
        let ghost first_pops = pops_before(op2->0, op1->0);
        let ghost lone = simple && end == start + 1;
        let ghost cend: int = choose|e: int| stray_close(tk, start as int, e);
        let ghost closed: bool = !in_matrix && stray_close(tk, start as int, cend);
        let ghost oend: int = choose|e: int| stray_open(tk, start as int, e);
        let ghost opened: bool = !in_matrix && stray_open(tk, start as int, oend);

        proof {
            assert forall|e: int| !in_matrix && #[trigger] stray_close(tk, start as int, e) implies closed && e == cend by {
                lemma_stray_close_end(tk, start as int, e, cend);
            }
            assert forall|e: int| !in_matrix && #[trigger] stray_open(tk, start as int, e) implies opened && e == oend by {
                lemma_simple_statement_end(tk, start + 1, e, oend);
            }
        }
        proof {
            assert forall|e: int| !in_matrix && #[trigger] simple_statement(self.tokens@, start as int, e) implies simple && e == end by {
                lemma_simple_statement_end(self.tokens@, start as int, e, end);
            }
        }

        while self.pos < self.tokens.len()
            invariant
                self.wf(),
                self.tokens@ == old(self).tokens@,
                start == old(self).pos,
                start <= self.pos,
                flat_wf(out@),
                postfix_run(out@, 0) == Some(
                    if last_was_operand {
                        count_ops(ops@) + 1
                    } else {
                        count_ops(ops@)
                    },
                ),
                out@.len() > 0 ==> self.pos > start,
                self.pos > start ==> !(self.tokens@[self.pos - 1] is SemiColon),
                simple ==> self.pos <= end,
                simple ==> (last_was_operand <==> (self.pos - start) % 2 == 1),
                simple ==> forall|k: int| 0 <= k < ops@.len() ==> #[trigger] ops@[k] is Some,
                tk == self.tokens@,
                closed ==> self.pos <= cend,
                closed ==> (last_was_operand <==> (self.pos - start) % 2 == 1),
                closed ==> forall|k: int| 0 <= k < ops@.len() ==> #[trigger] ops@[k] is Some,
                opened ==> self.pos <= oend,
                opened && self.pos == start ==> ops@.len() == 0 && !last_was_operand,
                opened && self.pos > start ==> {
                    &&& ops@.len() >= 1
                    &&& ops@[0] is None
                    &&& forall|k: int| 1 <= k < ops@.len() ==> #[trigger] ops@[k] is Some
                    &&& (last_was_operand <==> (self.pos - start - 1) % 2 == 1)
                },
                lone ==> {
                    &&& self.pos == start ==> out@.len() == 0 && ops@.len() == 0
                    &&& self.pos == start + 1 ==> out@ == seq![a] && ops@.len() == 0
                },
                one ==> {
                    &&& self.pos == start ==> out@.len() == 0 && ops@.len() == 0
                    &&& self.pos == start + 1 ==> out@ == seq![a] && ops@.len() == 0
                    &&& self.pos == start + 2 ==> out@ == seq![a] && ops@ == seq![op1]
                    &&& self.pos == start + 3 ==> out@ == seq![b, a] && ops@ == seq![op1]
                },
                two ==> {
                    &&& self.pos == start ==> out@.len() == 0 && ops@.len() == 0
                    &&& self.pos == start + 1 ==> out@ == seq![a] && ops@.len() == 0
                    &&& self.pos == start + 2 ==> out@ == seq![a] && ops@ == seq![op1]
                    &&& self.pos == start + 3 ==> out@ == seq![b, a] && ops@ == seq![op1]
                    &&& self.pos == start + 4 ==> if first_pops {
                        out@ == seq![o1, b, a] && ops@ == seq![op2]
                    } else {
                        out@ == seq![b, a] && ops@ == seq![op1, op2]
                    }
                    &&& self.pos == start + 5 ==> if first_pops {
                        out@ == seq![c, o1, b, a] && ops@ == seq![op2]
                    } else {
                        out@ == seq![c, b, a] && ops@ == seq![op1, op2]
                    }
                },
            decreases self.tokens@.len() - self.pos,
        {
            let p = self.pos;
            match &self.tokens[p] {
                Token::NumericLiteral(n) => {
                    if last_was_operand {
                        if in_matrix {
                            break;
                        }
                        return Err(ParsingError::InvalidArithmaticExpression);
                    }
                    let v = ASTNodeValue::Number(*n);
                    self.pos = p + 1;
                    push_front(&mut out, v);
                    proof {
                        if lone || one || two {
                            if self.pos == start + 1 {
                                assert(out@ =~= seq![a]);
                            }
                            if self.pos == start + 3 {
                                assert(out@ =~= seq![b, a]);
                            }
                            if self.pos == start + 5 {
                                assert(out@ =~= seq![c, o1, b, a] || out@ =~= seq![c, b, a]);
                            }
                        }
                    }
                    last_was_operand = true;
                },
                Token::Identifier(name) => {
                    if last_was_operand {
                        if in_matrix {
                            break;
                        }
                        return Err(ParsingError::InvalidArithmaticExpression);
                    }
                    let v = ASTNodeValue::Variable(name.clone());
                    self.pos = p + 1;
                    push_front(&mut out, v);
                    proof {
                        if lone || one || two {
                            if self.pos == start + 1 {
                                assert(out@ =~= seq![a]);
                            }
                            if self.pos == start + 3 {
                                assert(out@ =~= seq![b, a]);
                            }
                            if self.pos == start + 5 {
                                assert(out@ =~= seq![c, o1, b, a] || out@ =~= seq![c, b, a]);
                            }
                        }
                    }
                    last_was_operand = true;
                },
                Token::OpenBracket => {
                    if last_was_operand {
                        if in_matrix {
                            break;
                        }
                        return Err(ParsingError::InvalidArithmaticExpression);
                    }
                    self.pos = p + 1;
                    let v = self.parse_matrix()?;
                    push_front(&mut out, v);
                    last_was_operand = true;
                },
                Token::Plus | Token::Minus | Token::Asterisk | Token::Slash | Token::Equal => {
                    if !last_was_operand {
                        return Err(ParsingError::InvalidArithmaticExpression);
                    }
                    let op = Operator::from_token(&self.tokens[p])?;
                    self.pos = p + 1;
                    let precedence = op.precedence();
                    loop
                        invariant
                            flat_wf(out@),
                            postfix_run(out@, 0) == Some(count_ops(ops@) + 1),
                            out@.len() > 0,
                            simple ==> forall|k: int| 0 <= k < ops@.len() ==> #[trigger] ops@[k] is Some,
                            closed ==> forall|k: int| 0 <= k < ops@.len() ==> #[trigger] ops@[k] is Some,
                            opened ==> {
                                &&& ops@.len() >= 1
                                &&& ops@[0] is None
                                &&& forall|k: int| 1 <= k < ops@.len() ==> #[trigger] ops@[k] is Some
                            },
                            (one || two) && self.pos == start + 2 ==> ops@.len() == 0 && out@ == seq![a],
                            two && self.pos == start + 4 ==> (ops@ == seq![op1] && out@ == seq![b, a]) || (first_pops
                                && ops@.len() == 0 && out@ == seq![o1, b, a]),
                        decreases ops@.len(),
                    {
                        if ops.len() == 0 {
                            break;
                        }
                        let top = ops[ops.len() - 1];
                        let binds_looser = match top {
                            Some(top_op) => {
                                let top_precedence = top_op.precedence();
                                precedence < top_precedence || (precedence == top_precedence && op
                                    != Operator::Assign)
                            },
                            None => false,
                        };
                        if !binds_looser {
                            break;
                        }
                        let ghost before = ops@;
                        ops.pop();
                        proof {
                            assert(ops@ == before.drop_last());
                            assert(count_ops(before) == count_ops(ops@) + 1);
                        }
                        let v = ASTNodeValue::Operator(top.unwrap());
                        push_front(&mut out, v);
                        proof {
                            if two && self.pos == start + 4 {
                                assert(out@ =~= seq![o1, b, a]);
                            }
                        }
                    }
                    let ghost before = ops@;
                    ops.push(Some(op));
                    proof {
                        assert(ops@.drop_last() == before);
                        if (one || two) && self.pos == start + 2 {
                            assert(ops@ =~= seq![op1]);
                        }
                        if two && self.pos == start + 4 {
                            assert(ops@ =~= seq![op2] || ops@ =~= seq![op1, op2]);
                        }
                    }
                    last_was_operand = false;
                },
                Token::OpenParen => {
                    if last_was_operand {
                        if in_matrix {
                            break;
                        }
                        return Err(ParsingError::InvalidArithmaticExpression);
                    }
                    self.pos = p + 1;
                    let ghost before = ops@;
                    ops.push(None);
                    proof {
                        assert(ops@.drop_last() == before);
                    }
                    last_was_operand = false;
                },
                Token::CloseParen => {
                    if !last_was_operand {
                        return Err(ParsingError::InvalidArithmaticExpression);
                    }
                    self.pos = p + 1;
                    loop
                        invariant
                            flat_wf(out@),
                            postfix_run(out@, 0) == Some(count_ops(ops@) + 1),
                            out@.len() > 0,
                            closed ==> forall|k: int| 0 <= k < ops@.len() ==> #[trigger] ops@[k] is Some,
                        decreases ops@.len(),
                    {
                        let ghost before = ops@;
                        match ops.pop() {
                            None => return Err(ParsingError::UnmatchedCloseParen),
                            Some(None) => {
                                proof {
                                    assert(ops@ == before.drop_last());
                                    assert(count_ops(before) == count_ops(ops@));
                                }
                                break;
                            },
                            Some(Some(op)) => {
                                proof {
                                    assert(ops@ == before.drop_last());
                                    assert(count_ops(before) == count_ops(ops@) + 1);
                                }
                                let v = ASTNodeValue::Operator(op);
                                push_front(&mut out, v);
                            },
                        }
                    }
                },
                _ => {
                    break;
                },
            }
        }

        if out.len() == 0 {
            return Err(ParsingError::UnexpectedEndOfInput);
        }
        if !last_was_operand {
            if has_open_paren(&ops) {
                return Err(ParsingError::UnmatchedOpenParen);
            }
            return Err(ParsingError::InvalidArithmaticExpression);
        }
        loop
            invariant
                flat_wf(out@),
                postfix_run(out@, 0) == Some(count_ops(ops@) + 1),
                out@.len() > 0,
                simple ==> forall|k: int| 0 <= k < ops@.len() ==> #[trigger] ops@[k] is Some,
                opened ==> {
                    &&& ops@.len() >= 1
                    &&& ops@[0] is None
                    &&& forall|k: int| 1 <= k < ops@.len() ==> #[trigger] ops@[k] is Some
                },
                lone ==> ops@.len() == 0 && out@ == seq![a],
                one ==> {
                    &&& ops@.len() <= 1
                    &&& ops@.len() == 1 ==> ops@ == seq![op1] && out@ == seq![b, a]
                    &&& ops@.len() == 0 ==> out@ == binary_postfix(self.tokens@, start as int)
                },
                two ==> {
                    &&& ops@.len() <= 2
                    &&& first_pops ==> ops@.len() <= 1
                    &&& ops@.len() == 2 ==> ops@ == seq![op1, op2] && out@ == seq![c, b, a]
                    &&& ops@.len() == 1 ==> if first_pops {
                        ops@ == seq![op2] && out@ == seq![c, o1, b, a]
                    } else {
                        ops@ == seq![op1] && out@ == seq![o2, c, b, a]
                    }
                    &&& ops@.len() == 0 ==> out@ == ternary_postfix(self.tokens@, start as int)
                },
            decreases ops@.len(),
        {
            let ghost before = ops@;
            let ghost out_before = out@;
            match ops.pop() {
                None => break,
                Some(None) => return Err(ParsingError::UnmatchedOpenParen),
                Some(Some(op)) => {
                    proof {
                        assert(ops@ == before.drop_last());
                        assert(count_ops(before) == count_ops(ops@) + 1);
                    }
                    let v = ASTNodeValue::Operator(op);
                    push_front(&mut out, v);
                    proof {
                        if one {
                            assert(out@ =~= binary_postfix(self.tokens@, start as int));
                        }
                        if two {
                            if ops@.len() == 1 {
                                assert(out@ =~= seq![o2, c, b, a]);
                            } else {
                                assert(out@ =~= ternary_postfix(self.tokens@, start as int));
                            }
                        }
                    }
                },
            }
        }
        if out.len() == 1 {
            let v = out.pop().unwrap();
            proof {
                assert(out@.len() == 0);
            }
            Ok(ASTNode::from_value(v))
        } else {
            Ok(ASTNode::from_value(ASTNodeValue::ArithmaticExpr(out)))
        }
    }
}

} // verus!

verus! {

impl<T: Scalar> Parser<T> {
    /// Parses a matrix literal whose `[` has been read: cells separated by
    /// commas (or by juxtaposition), rows separated by semicolons, closed by
    /// `]`. Every row must have as many cells as the row before it. For a
    /// literal of one-token cells the outcome is `matrix_scan`.
    fn parse_matrix(&mut self) -> (r: Result<ASTNodeValue<T>, ParsingError>)
        requires
            old(self).wf(),
        ensures
            final(self).wf(),
            final(self).tokens() == old(self).tokens(),
            final(self).position() >= old(self).position(),
            match r {
                Ok(v) => {
                    &&& v is Matrix
                    &&& wf_value(v)
                    &&& final(self).position() > old(self).position()
                    &&& final(self).tokens()[final(self).position() - 1] is CloseBracket
                },
                Err(_) => true,
            },
            match matrix_scan(old(self).tokens(), old(self).position() as int, seq![], seq![], false) {
                Some((Ok(rows), e)) => r matches Ok(ASTNodeValue::Matrix(m)) && mat_values(m@) == rows
                    && final(self).position() == e,
                Some((Err(err), _)) => r == Err::<ASTNodeValue<T>, ParsingError>(err),
                None => true,
            },
        decreases old(self).tokens@.len() - old(self).pos, 2int,
    {
        let mut mat: Vec<Vec<ASTNode<T>>> = Vec::new();
        let mut row: Vec<ASTNode<T>> = Vec::new();
        let mut after_comma = false;
        let ghost scan = matrix_scan(self.tokens@, self.pos as int, seq![], seq![], false);
        proof {
            assert(mat_values(mat@) =~= seq![]);
            assert(row_values(row@) =~= seq![]);
        }

        loop
            invariant
                self.wf(),
                self.tokens@ == old(self).tokens@,
                old(self).pos <= self.pos,
                rectangular(mat@),
                forall|i: int, j: int|
                    0 <= i < mat@.len() && 0 <= j < mat@[i]@.len() ==> wf_value(
                        #[trigger] mat@[i]@[j].value,
                    ),
                forall|j: int| 0 <= j < row@.len() ==> wf_value(#[trigger] row@[j].value),
                scan == matrix_scan(old(self).tokens@, old(self).pos as int, seq![], seq![], false),
                scan is Some ==> scan == matrix_scan(
                    self.tokens@,
                    self.pos as int,
                    mat_values(mat@),
                    row_values(row@),
                    after_comma,
                ),
            decreases self.tokens@.len() - self.pos,
        {
            if self.pos >= self.tokens.len() {
                return Err(ParsingError::IncompleteStatement);
            }
            let p = self.pos;
            let ghost rv = row_values(row@);
            let ghost mv = mat_values(mat@);
            proof {
                if mat@.len() > 0 {
                    assert(mv.last() == row_values(mat@.last()@));
                }
            }
            match &self.tokens[p] {
                Token::Comma => {
                    if after_comma || row.len() == 0 {
                        return Err(ParsingError::EmptyMatrixElement);
                    }
                    self.pos = p + 1;
                    after_comma = true;
                },
                Token::SemiColon => {
                    self.pos = p + 1;
                    if row.len() > 0 {
                        if mat.len() > 0 && mat[mat.len() - 1].len() != row.len() {
                            return Err(
                                ParsingError::DimensionsMismatch(mat[mat.len() - 1].len(), row.len()),
                            );
                        }
                        let ghost old_mat = mat@;
                        mat.push(row);
                        row = Vec::new();
                        proof {
                            assert forall|i: int| 0 <= i < mat@.len() implies #[trigger] mat@[i]@.len()
                                == mat@[0]@.len() && mat@[i]@.len() > 0 by {
                                if i < old_mat.len() {
                                    assert(mat@[i] == old_mat[i]);
                                }
                            }
                            assert(mat_values(mat@) =~= mv.push(rv));
                            assert(row_values(row@) =~= seq![]);
                        }
                    }
                    after_comma = false;
                },
                Token::CloseBracket => {
                    self.pos = p + 1;
                    if row.len() > 0 {
                        if mat.len() > 0 && mat[mat.len() - 1].len() != row.len() {
                            return Err(
                                ParsingError::DimensionsMismatch(mat[mat.len() - 1].len(), row.len()),
                            );
                        }
                        let ghost old_mat = mat@;
                        mat.push(row);
                        proof {
                            assert forall|i: int| 0 <= i < mat@.len() implies #[trigger] mat@[i]@.len()
                                == mat@[0]@.len() && mat@[i]@.len() > 0 by {
                                if i < old_mat.len() {
                                    assert(mat@[i] == old_mat[i]);
                                }
                            }
                            assert(mat_values(mat@) =~= mv.push(rv));
                        }
                    }
                    return Ok(ASTNodeValue::Matrix(mat));
                },
                Token::EndOfFile => {
                    return Err(ParsingError::IncompleteStatement);
                },
                _ => {
                    let single = match &self.tokens[p] {
                        Token::NumericLiteral(n) => Some(ASTNodeValue::Number(*n)),
                        Token::Identifier(name) => Some(ASTNodeValue::Variable(name.clone())),
                        _ => None,
                    };
                    let next_ends_cell = if p + 1 < self.tokens.len() {
                        match &self.tokens[p + 1] {
                            Token::Plus | Token::Minus | Token::Asterisk | Token::Slash | Token::Equal
                            | Token::CloseParen => false,
                            _ => true,
                        }
                    } else {
                        true
                    };
                    match single {
                        Some(value) if next_ends_cell => {
                            self.pos = p + 1;
                            row.push(ASTNode::from_value(value));
                            proof {
                                assert(row_values(row@) =~= rv.push(operand_node(self.tokens@[p as int])));
                            }
                        },
                        _ => {
                            let cell = self.parse_expr(true)?;
                            row.push(cell);
                        },
                    }
                    after_comma = false;
                },
            }
        }
    }
}

} // verus!
