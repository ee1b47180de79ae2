use namlang::ast::{ASTNodeValue, Operator};
use namlang::engine::Engine;
use namlang::errors::{EvaluationError, ParsingError, TokenizationErrorKind};
use namlang::lexer::Lexer;
use namlang::matrix::Matrix;
use namlang::parser::Parser;
use namlang::runtime::RuntimeVal;
use namlang::scalar::Scalar;
use namlang::session::StatementError;
use namlang::token::Token;
use namlang::utils::pop_front;

#[derive(Debug, Clone, Copy, PartialEq)]
struct Num(f64);

impl Scalar for Num {
    fn spec_zero() -> Self {
        Num(0.0)
    }

    fn spec_one() -> Self {
        Num(1.0)
    }

    fn spec_plus(a: Self, b: Self) -> Self {
        Num(a.0 + b.0)
    }

    fn spec_minus(a: Self, b: Self) -> Self {
        Num(a.0 - b.0)
    }

    fn spec_times(a: Self, b: Self) -> Self {
        Num(a.0 * b.0)
    }

    fn spec_over(a: Self, b: Self) -> Self {
        Num(a.0 / b.0)
    }

    fn spec_negated(a: Self) -> Self {
        Num(-a.0)
    }

    fn spec_is_zero(a: Self) -> bool {
        a.0 == 0.0
    }

    fn spec_is_one(a: Self) -> bool {
        a.0 == 1.0
    }

    fn zero() -> Self {
        Self::spec_zero()
    }

    fn one() -> Self {
        Self::spec_one()
    }

    fn plus(self, rhs: Self) -> Self {
        Self::spec_plus(self, rhs)
    }

    fn minus(self, rhs: Self) -> Self {
        Self::spec_minus(self, rhs)
    }

    fn times(self, rhs: Self) -> Self {
        Self::spec_times(self, rhs)
    }

    fn over(self, rhs: Self) -> Self {
        Self::spec_over(self, rhs)
    }

    fn negated(self) -> Self {
        Self::spec_negated(self)
    }

    fn is_zero(self) -> bool {
        Self::spec_is_zero(self)
    }

    fn is_one(self) -> bool {
        Self::spec_is_one(self)
    }

    fn parse_literal(text: &str) -> Result<Self, String> {
        text.parse::<f64>().map(Num).map_err(|e| e.to_string())
    }

    fn render(self) -> String {
        self.0.to_string()
    }
}

fn run(engine: &mut Engine<Num>, line: &str) -> Result<RuntimeVal<Num>, StatementError> {
    engine.parse_and_eval(line)
}

fn scalar(engine: &mut Engine<Num>, line: &str) -> f64 {
    match run(engine, line) {
        Ok(RuntimeVal::Scalar(Num(x))) => x,
        other => panic!("expected a number from {line:?}, got {other:?}"),
    }
}

fn matrix(engine: &mut Engine<Num>, line: &str) -> Matrix<Num> {
    match run(engine, line) {
        Ok(RuntimeVal::Matrix(m)) => m,
        other => panic!("expected a matrix from {line:?}, got {other:?}"),
    }
}

fn cells(m: &Matrix<Num>) -> Vec<f64> {
    m.iter().iter().map(|c| c.0).collect()
}

fn tokens(line: &str) -> Vec<Token<Num>> {
    Lexer::new(line).tokenize().unwrap()
}

fn from_rows(rows: Vec<Vec<f64>>) -> Matrix<Num> {
    Matrix::try_from_rows(rows.into_iter().map(|r| r.into_iter().map(Num).collect()).collect()).unwrap()
}

fn parse_error(line: &str) -> ParsingError {
    match Parser::new(tokens(line)).parse() {
        Err(e) => e,
        Ok(node) => panic!("expected {line:?} not to parse, got {node:?}"),
    }
}

#[test]
fn binary_scalar_operations_follow_ieee_arithmetic() {
    let mut e = Engine::new();
    assert_eq!(scalar(&mut e, "7 + 2"), 7.0 + 2.0);
    assert_eq!(scalar(&mut e, "7 - 2.5"), 7.0 - 2.5);
    assert_eq!(scalar(&mut e, "0.1 * 3"), 0.1 * 3.0);
    assert_eq!(scalar(&mut e, "1 / 3"), 1.0 / 3.0);
    assert_eq!(scalar(&mut e, "1 / 0"), f64::INFINITY);
    assert!(scalar(&mut e, "0 / 0").is_nan());
}

#[test]
fn parenthesized_sum_distributes_over_product() {
    let triples: [(f64, f64, f64); 3] = [(1.0, 2.0, 3.0), (2.5, 0.5, 4.0), (10.0, 20.0, 0.25)];
    for (a, b, c) in triples {
        let mut e = Engine::new();
        e.parse_and_eval(&format!("a = {}", a)).unwrap();
        e.parse_and_eval(&format!("b = {}", b)).unwrap();
        e.parse_and_eval(&format!("c = {}", c)).unwrap();
        let left = scalar(&mut e, "(a+b)*c");
        let right = scalar(&mut e, "a*c+b*c");
        assert!((left - right).abs() < 1e-9);
    }
}

#[test]
fn multiplication_binds_tighter_than_addition() {
    let mut e = Engine::new();
    assert_eq!(scalar(&mut e, "2+3*4"), 14.0);
    assert_eq!(scalar(&mut e, "(2+3)*4"), 20.0);
    assert_eq!(scalar(&mut e, "2*3+4"), 10.0);
}

#[test]
fn equal_precedence_groups_to_the_left() {
    let mut e = Engine::new();
    assert_eq!(scalar(&mut e, "8-4-2"), 2.0);
    assert_eq!(scalar(&mut e, "16/4/2"), 2.0);
}

#[test]
fn assignment_binds_and_reads_back() {
    let mut e = Engine::new();
    match run(&mut e, "x = 5") {
        Ok(RuntimeVal::Variable(name)) => assert_eq!(name, "x"),
        other => panic!("unexpected {other:?}"),
    }
    assert_eq!(scalar(&mut e, "x+1"), 6.0);
}

#[test]
fn assignment_does_not_set_ans() {
    let mut e = Engine::new();
    run(&mut e, "x=5").unwrap();
    assert_eq!(
        run(&mut e, "ans").unwrap_err(),
        StatementError::Evaluation(EvaluationError::NonexistantVar(String::from("ans")))
    );
}

#[test]
fn computation_sets_ans() {
    let mut e = Engine::new();
    run(&mut e, "2*21").unwrap();
    assert_eq!(scalar(&mut e, "ans"), 42.0);
    run(&mut e, "7").unwrap();
    assert_eq!(scalar(&mut e, "ans + 1"), 8.0);
}

#[test]
fn bare_variable_does_not_set_ans() {
    let mut e = Engine::new();
    run(&mut e, "y = 3").unwrap();
    run(&mut e, "y").unwrap();
    assert!(run(&mut e, "ans").is_err());
}

#[test]
fn chained_assignment_binds_both() {
    let mut e = Engine::new();
    run(&mut e, "x = y = 3").unwrap();
    assert_eq!(scalar(&mut e, "x"), 3.0);
    assert_eq!(scalar(&mut e, "y"), 3.0);
}

#[test]
fn ragged_matrix_literal_fails_to_parse() {
    assert_eq!(parse_error("[1,2;3,4,5]"), ParsingError::DimensionsMismatch(2, 3));
    assert_eq!(parse_error("[1,2,3;4,5]"), ParsingError::DimensionsMismatch(3, 2));
}

#[test]
fn square_matrix_literal_evaluates() {
    let mut e = Engine::new();
    let m = matrix(&mut e, "[1,2;3,4]");
    assert_eq!(m.get_shape(), (2, 2));
    assert_eq!(cells(&m), vec![1.0, 2.0, 3.0, 4.0]);
}

#[test]
fn matrix_cells_may_be_separated_by_spaces() {
    let mut e = Engine::new();
    let m = matrix(&mut e, "[1 2 3]");
    assert_eq!(m.get_shape(), (1, 3));
    assert_eq!(cells(&m), vec![1.0, 2.0, 3.0]);
}

#[test]
fn one_by_one_matrix_is_a_number() {
    let mut e = Engine::new();
    assert_eq!(scalar(&mut e, "[5]"), 5.0);
}

#[test]
fn empty_matrix_literal() {
    let mut e = Engine::new();
    let m = matrix(&mut e, "[]");
    assert_eq!(m.get_shape(), (0, 0));
}

#[test]
fn consecutive_commas_are_an_empty_element() {
    assert_eq!(parse_error("[1,,2]"), ParsingError::EmptyMatrixElement);
}

#[test]
fn unterminated_matrix_is_incomplete() {
    assert_eq!(parse_error("[1,2"), ParsingError::IncompleteStatement);
}

#[test]
fn inverse_times_matrix_is_identity() {
    for rows in [
        vec![vec![2.0, 1.0], vec![1.0, 3.0]],
        vec![vec![0.0, 1.0], vec![1.0, 0.0]],
        vec![vec![4.0, 7.0, 2.0], vec![3.0, 6.0, 1.0], vec![2.0, 5.0, 3.0]],
        vec![vec![0.0, 2.0, 1.0], vec![1.0, 0.0, 0.0], vec![3.0, 1.0, 1.0]],
    ] {
        let m = from_rows(rows);
        let n = m.nrows();
        let inv = m.duplicate().try_invert().unwrap();
        let product = inv.mul_matrix(&m);
        let identity: Matrix<Num> = Matrix::identity_square(n);
        for (a, b) in cells(&product).iter().zip(cells(&identity).iter()) {
            assert!((a - b).abs() < 1e-9, "{:?}", cells(&product));
        }
    }
}

#[test]
fn matrix_divided_by_itself_is_identity() {
    let mut e = Engine::new();
    run(&mut e, "m = [4,7;2,6]").unwrap();
    let q = matrix(&mut e, "m / m");
    let expected = [1.0, 0.0, 0.0, 1.0];
    for (a, b) in cells(&q).iter().zip(expected.iter()) {
        assert!((a - b).abs() < 1e-9);
    }
}

#[test]
fn dividing_by_matrix_with_zero_row_fails() {
    let mut e = Engine::new();
    assert_eq!(
        run(&mut e, "[1,2;3,4] / [1,2;0,0]").unwrap_err(),
        StatementError::Evaluation(EvaluationError::NoninvertibleDivisorMatrix)
    );
    assert!(from_rows(vec![vec![0.0, 0.0], vec![1.0, 2.0]]).try_invert().is_none());
}

#[test]
fn dividing_by_non_square_matrix_fails() {
    let mut e = Engine::new();
    assert_eq!(
        run(&mut e, "[1,2] / [1,2]").unwrap_err(),
        StatementError::Evaluation(EvaluationError::NoninvertibleDivisorMatrix)
    );
}

#[test]
fn lu_rank_of_singular_matrix() {
    let m = from_rows(vec![vec![2.0, 4.0], vec![1.0, 2.0]]);
    let (lower, upper, perm, rank) = m.lu_decomp();
    assert_eq!(rank, 1);
    assert_eq!(m.rank(), 1);
    assert_eq!(lower.get_shape(), (2, 2));
    assert_eq!(cells(&lower), vec![1.0, 0.0, 0.5, 1.0]);
    assert_eq!(cells(&upper), vec![2.0, 4.0, 0.0, 0.0]);
    assert_eq!(perm, vec![0, 1]);
}

#[test]
fn lu_pivots_past_a_zero() {
    let m = from_rows(vec![vec![0.0, 1.0], vec![1.0, 0.0]]);
    let (_, upper, perm, rank) = m.lu_decomp();
    assert_eq!(rank, 2);
    assert_eq!(perm, vec![1, 0]);
    assert_eq!(cells(&upper), vec![1.0, 0.0, 0.0, 1.0]);
    let p: Matrix<Num> = Matrix::from_permutations_vector(perm);
    assert_eq!(cells(&p), vec![0.0, 1.0, 1.0, 0.0]);
}

#[test]
fn determinant_of_identity_is_one() {
    let m = from_rows(vec![vec![1.0, 0.0], vec![0.0, 1.0]]);
    assert_eq!(m.try_det().map(|d| d.0), Some(1.0));
    assert_eq!(from_rows(vec![vec![2.0, 1.0], vec![4.0, 3.0]]).try_det().map(|d| d.0), Some(2.0));
    assert!(from_rows(vec![vec![1.0, 2.0]]).try_det().is_none());
}

#[test]
fn nested_matrix_cell_is_rejected() {
    let mut e = Engine::new();
    assert_eq!(
        run(&mut e, "[[1,2],3]").unwrap_err(),
        StatementError::Evaluation(EvaluationError::NestedMatrices)
    );
    run(&mut e, "m = [1,2]").unwrap();
    assert_eq!(
        run(&mut e, "[m, 3]").unwrap_err(),
        StatementError::Evaluation(EvaluationError::NestedMatrices)
    );
}

#[test]
fn unmatched_parentheses() {
    assert_eq!(parse_error("(1+2"), ParsingError::UnmatchedOpenParen);
    assert_eq!(parse_error("1+2)"), ParsingError::UnmatchedCloseParen);
}

#[test]
fn malformed_operator_sequences() {
    assert_eq!(parse_error("1 + * 2"), ParsingError::InvalidArithmaticExpression);
    assert_eq!(parse_error("1 2"), ParsingError::InvalidArithmaticExpression);
    assert_eq!(parse_error("1 +"), ParsingError::InvalidArithmaticExpression);
    assert_eq!(parse_error("()"), ParsingError::InvalidArithmaticExpression);
    assert_eq!(parse_error(""), ParsingError::UnexpectedEndOfInput);
}

#[test]
fn stray_token_after_expression() {
    match parse_error("1 ]") {
        ParsingError::UnexpectedToken { expected, found } => {
            assert_eq!(expected, Some(String::from("EndOfFile")));
            assert_eq!(found, Some(String::from("CloseBracket")));
        },
        other => panic!("unexpected {other:?}"),
    }
}

#[test]
fn reevaluating_a_node_gives_the_same_result() {
    let mut e = Engine::new();
    run(&mut e, "k = 4").unwrap();
    let node = Parser::new(tokens("k*2+1")).parse().unwrap();
    let first = match e.evaluate(&node) {
        Ok(RuntimeVal::Scalar(Num(x))) => x,
        other => panic!("{other:?}"),
    };
    let second = match e.evaluate(&node) {
        Ok(RuntimeVal::Scalar(Num(x))) => x,
        other => panic!("{other:?}"),
    };
    assert_eq!(first, 9.0);
    assert_eq!(first, second);
}

#[test]
fn postfix_is_stored_back_to_front() {
    let node = Parser::new(tokens("1-2")).parse().unwrap();
    match node.value {
        ASTNodeValue::ArithmaticExpr(post) => {
            assert_eq!(
                post,
                vec![
                    ASTNodeValue::Operator(Operator::Subtract),
                    ASTNodeValue::Number(Num(2.0)),
                    ASTNodeValue::Number(Num(1.0)),
                ]
            );
        },
        other => panic!("{other:?}"),
    }
    assert!(node.store_in_ans);
    assert!(node.print_result);
}

#[test]
fn semicolon_silences_the_result() {
    let node = Parser::new(tokens("3;")).parse().unwrap();
    assert!(!node.print_result);
    assert!(node.store_in_ans);
    let assign = Parser::new(tokens("x = 3")).parse().unwrap();
    assert!(!assign.store_in_ans);
}

#[test]
fn unknown_variable_is_reported() {
    let mut e = Engine::new();
    assert_eq!(
        run(&mut e, "zz + 1").unwrap_err(),
        StatementError::Evaluation(EvaluationError::NonexistantVar(String::from("zz")))
    );
}

#[test]
fn failed_statement_leaves_variables_unchanged() {
    let mut e = Engine::new();
    run(&mut e, "x = 1").unwrap();
    assert!(run(&mut e, "(x = 2) + missing").is_err());
    assert_eq!(scalar(&mut e, "x"), 1.0);
}

#[test]
fn assignment_to_non_variable_fails() {
    let mut e = Engine::new();
    assert_eq!(
        run(&mut e, "1 = 2").unwrap_err(),
        StatementError::Evaluation(EvaluationError::AssignmentToNonVariable)
    );
}

#[test]
fn matrix_shape_mismatch_in_sum_and_product() {
    let mut e = Engine::new();
    assert_eq!(
        run(&mut e, "[1,2] + [1,2,3]").unwrap_err(),
        StatementError::Evaluation(EvaluationError::DimensionsMismatch((1, 2), (1, 3)))
    );
    assert_eq!(
        run(&mut e, "[1,2] * [1,2]").unwrap_err(),
        StatementError::Evaluation(EvaluationError::DimensionsMismatch((1, 2), (1, 2)))
    );
}

#[test]
fn matrix_arithmetic_values() {
    let mut e = Engine::new();
    assert_eq!(cells(&matrix(&mut e, "[1,2;3,4] * [5;6]")), vec![17.0, 39.0]);
    assert_eq!(cells(&matrix(&mut e, "[1,2] + [10,20]")), vec![11.0, 22.0]);
    assert_eq!(cells(&matrix(&mut e, "[1,2] - [10,20]")), vec![-9.0, -18.0]);
    assert_eq!(cells(&matrix(&mut e, "10 - [1,2]")), vec![9.0, 8.0]);
    assert_eq!(cells(&matrix(&mut e, "[1,2] - 1")), vec![0.0, 1.0]);
    assert_eq!(cells(&matrix(&mut e, "2 * [1,2]")), vec![2.0, 4.0]);
    assert_eq!(cells(&matrix(&mut e, "[2,4] / 2")), vec![1.0, 2.0]);
    assert_eq!(cells(&matrix(&mut e, "8 / [2,4]")), vec![4.0, 2.0]);
    assert_eq!(cells(&matrix(&mut e, "1 + [1,2]")), vec![2.0, 3.0]);
}

#[test]
fn inconsistent_rows_are_rejected_when_building() {
    let rows = vec![vec![Num(1.0), Num(2.0)], vec![Num(3.0)]];
    match Matrix::try_from_rows(rows) {
        Err(e) => assert_eq!(e, EvaluationError::InconsistantMatrixWidth(2, 1)),
        Ok(_) => panic!("ragged rows accepted"),
    }
}

#[test]
fn constructors_have_expected_cells() {
    assert_eq!(cells(&Matrix::<Num>::identity_rect(2, 3)), vec![1.0, 0.0, 0.0, 0.0, 1.0, 0.0]);
    assert_eq!(cells(&Matrix::<Num>::zeros_rect(1, 2)), vec![0.0, 0.0]);
    assert_eq!(cells(&Matrix::<Num>::ones_square(2)), vec![1.0; 4]);
    assert_eq!(Matrix::<Num>::zeros_square(3).get_shape(), (3, 3));
    assert_eq!(Matrix::<Num>::ones_rect(2, 1).get_shape(), (2, 1));
    assert!(Matrix::<Num>::new().last_cell().is_none());
}

#[test]
fn row_swaps() {
    let mut m = from_rows(vec![vec![1.0, 2.0, 3.0], vec![4.0, 5.0, 6.0]]);
    m.swap_rows(0, 1);
    assert_eq!(cells(&m), vec![4.0, 5.0, 6.0, 1.0, 2.0, 3.0]);
    m.swap_rows_starting_from(0, 1, 1);
    assert_eq!(cells(&m), vec![4.0, 2.0, 3.0, 1.0, 5.0, 6.0]);
    m.swap_rows_ending_at(0, 1, 0);
    assert_eq!(cells(&m), vec![1.0, 2.0, 3.0, 4.0, 5.0, 6.0]);
    m.swap_rows_ranged(0, 1, 2..3);
    assert_eq!(cells(&m), vec![1.0, 2.0, 6.0, 4.0, 5.0, 3.0]);
    assert_eq!(m.get(1, 2).map(|c| c.0), Some(3.0));
    assert_eq!(m.last_cell().map(|c| c.0), Some(3.0));
}

#[test]
fn lexer_reads_numbers_names_and_ends() {
    let t = tokens("x1 = 1_000.5e-1;\n");
    assert_eq!(
        t,
        vec![
            Token::Identifier(String::from("x1")),
            Token::Equal,
            Token::NumericLiteral(Num(100.05)),
            Token::SemiColon,
            Token::EndOfLine,
            Token::EndOfFile,
        ]
    );
}

#[test]
fn lexer_errors() {
    let err = Lexer::new("1.2.3").tokenize::<Num>().unwrap_err();
    assert_eq!(err.kind, TokenizationErrorKind::UnexpectedChar('.'));
    let err = Lexer::new("2x").tokenize::<Num>().unwrap_err();
    assert_eq!(err.kind, TokenizationErrorKind::UnspportedSyntax(String::from("x")));
    let err = Lexer::new("1 $ 2").tokenize::<Num>().unwrap_err();
    assert_eq!(err.kind, TokenizationErrorKind::UnexpectedChar('$'));
    let err = Lexer::new("3e").tokenize::<Num>().unwrap_err();
    assert_eq!(err.kind, TokenizationErrorKind::UnexpectedChar('e'));
}

#[test]
fn operator_precedence_and_tokens() {
    assert_eq!(Operator::Multiply.precedence(), 3);
    assert_eq!(Operator::Divide.precedence(), 3);
    assert_eq!(Operator::Add.precedence(), 2);
    assert_eq!(Operator::Subtract.precedence(), 2);
    assert_eq!(Operator::Assign.precedence(), 1);
    assert_eq!(Operator::Assign.tokenize::<Num>(), Token::Equal);
    assert_eq!(Operator::from_token(&Token::<Num>::Slash), Ok(Operator::Divide));
    assert!(Operator::from_token(&Token::<Num>::Comma).is_err());
    assert_eq!(Token::<Num>::Identifier(String::from("ab")).stringify(), "Identifier: ab");
    assert_eq!(Token::NumericLiteral(Num(2.5)).stringify(), "NumericLiteral: 2.5");
}

#[test]
fn pop_front_takes_the_first() {
    let mut v = vec![1, 2, 3];
    assert_eq!(pop_front(&mut v), Some(1));
    assert_eq!(v, vec![2, 3]);
    let mut empty: Vec<i32> = vec![];
    assert_eq!(pop_front(&mut empty), None);
}

#[test]
fn engine_variables_api() {
    let mut e: Engine<Num> = Engine::new();
    assert!(e.assign_var(String::from("v"), RuntimeVal::Scalar(Num(1.0))).is_none());
    match e.assign_var(String::from("v"), RuntimeVal::Scalar(Num(2.0))) {
        Some(RuntimeVal::Scalar(Num(x))) => assert_eq!(x, 1.0),
        other => panic!("{other:?}"),
    }
    match e.get_var(&String::from("v")) {
        Some(RuntimeVal::Scalar(Num(x))) => assert_eq!(x, 2.0),
        other => panic!("{other:?}"),
    }
    assert!(e.get_var(&String::from("w")).is_none());
}

#[test]
fn token_from_text() {
    assert_eq!(Token::<Num>::from_text("+"), Ok(Token::Plus));
    assert_eq!(Token::<Num>::from_text(";"), Ok(Token::SemiColon));
    assert_eq!(Token::<Num>::from_text("abc_1"), Ok(Token::Identifier(String::from("abc_1"))));
    assert_eq!(Token::<Num>::from_text("42"), Ok(Token::NumericLiteral(Num(42.0))));
    assert_eq!(Token::<Num>::from_text("").unwrap_err().kind, TokenizationErrorKind::EmptyString);
    assert_eq!(Token::<Num>::from_text("4x2").unwrap_err().kind, TokenizationErrorKind::NotANumber);
    assert_eq!(Token::<Num>::from_text("ab$").unwrap_err().kind, TokenizationErrorKind::UnexpectedChar('$'));
    assert_eq!(Token::<Num>::from_text("#").unwrap_err().kind, TokenizationErrorKind::UnexpectedChar('#'));
}

#[test]
fn get_mut_changes_one_cell() {
    let mut m = from_rows(vec![vec![1.0, 2.0], vec![3.0, 4.0]]);
    *m.get_mut(1, 0) = Num(9.0);
    assert_eq!(cells(&m), vec![1.0, 2.0, 9.0, 4.0]);
}

#[test]
fn assignment_leaves_existing_ans() {
    let mut e = Engine::new();
    run(&mut e, "3+4").unwrap();
    run(&mut e, "q = 10").unwrap();
    assert_eq!(scalar(&mut e, "ans"), 7.0);
}

fn postfix_of(line: &str) -> Vec<ASTNodeValue<Num>> {
    match Parser::new(tokens(line)).parse().unwrap().value {
        ASTNodeValue::ArithmaticExpr(post) => post,
        other => panic!("{other:?}"),
    }
}

#[test]
fn two_operator_statements_follow_precedence() {
    let n = |x: f64| ASTNodeValue::Number(Num(x));
    let o = |op: Operator| ASTNodeValue::Operator(op);
    assert_eq!(
        postfix_of("2+3*4"),
        vec![o(Operator::Add), o(Operator::Multiply), n(4.0), n(3.0), n(2.0)]
    );
    assert_eq!(
        postfix_of("2*3+4"),
        vec![o(Operator::Add), n(4.0), o(Operator::Multiply), n(3.0), n(2.0)]
    );
    assert_eq!(
        postfix_of("2-3-4"),
        vec![o(Operator::Subtract), n(4.0), o(Operator::Subtract), n(3.0), n(2.0)]
    );
}

#[test]
fn numeric_matrix_literal_keeps_its_cells() {
    let mut e = Engine::new();
    let m = matrix(&mut e, "[1.5, 2; 3, 4.25; 5, 6]");
    assert_eq!(m.get_shape(), (3, 2));
    assert_eq!(cells(&m), vec![1.5, 2.0, 3.0, 4.25, 5.0, 6.0]);
}

#[test]
fn inverse_of_two_by_two() {
    let m = from_rows(vec![vec![1.0, 2.0], vec![3.0, 4.0]]);
    let inv = m.try_invert().unwrap();
    let expected = [-2.0, 1.0, 1.5, -0.5];
    for (a, b) in cells(&inv).iter().zip(expected.iter()) {
        assert!((a - b).abs() < 1e-12);
    }
    let p = from_rows(vec![vec![0.0, 1.0], vec![1.0, 0.0]]).try_invert().unwrap();
    assert_eq!(cells(&p), vec![0.0, 1.0, 1.0, 0.0]);
}

#[test]
fn iter_mut_changes_cells_in_place() {
    let mut m = from_rows(vec![vec![1.0, 2.0], vec![3.0, 4.0]]);
    for cell in m.iter_mut().iter_mut() {
        *cell = Num(cell.0 * 10.0);
    }
    assert_eq!(cells(&m), vec![10.0, 20.0, 30.0, 40.0]);
}

#[test]
fn unbound_operand_in_assignment_binds_nothing() {
    let mut e = Engine::new();
    assert_eq!(
        run(&mut e, "x = y + 1").unwrap_err(),
        StatementError::Evaluation(EvaluationError::NonexistantVar(String::from("y")))
    );
    assert!(e.get_var(&String::from("x")).is_none());
    assert!(e.get_var(&String::from("ans")).is_none());
}

#[test]
fn parse_errors_of_matrix_literals_and_lines() {
    assert_eq!(parse_error("[,1]"), ParsingError::EmptyMatrixElement);
    assert_eq!(parse_error("*2"), ParsingError::InvalidArithmaticExpression);
    assert_eq!(parse_error(";"), ParsingError::UnexpectedEndOfInput);
}
