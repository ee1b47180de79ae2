use vstd::prelude::*;

use crate::errors::ParsingError;
use crate::scalar::Scalar;
use crate::token::{describes, Token};

verus! {

/// One parsed statement, with the two flags that tell the engine what to do
/// with its value.
#[derive(Debug, PartialEq)]
pub struct ASTNode<T> {
    pub value: ASTNodeValue<T>,
    /// Whether the value becomes the variable `ans`.
    pub store_in_ans: bool,
    /// Whether the value is to be shown.
    pub print_result: bool,
}

/// An expression.
///
/// `ArithmaticExpr` holds a postfix sequence stored back to front: the node
/// evaluated first is the last element.
#[derive(Debug, PartialEq)]
pub enum ASTNodeValue<T> {
    Variable(String),
    Number(T),
    Matrix(Vec<Vec<ASTNode<T>>>),
    Operator(Operator),
    ArithmaticExpr(Vec<ASTNodeValue<T>>),
}

impl<T> ASTNode<T> {
    /// A node that neither stores its value nor shows it.
    pub fn from_value(value: ASTNodeValue<T>) -> (r: Self)
        ensures
            r.value == value,
            !r.store_in_ans,
            !r.print_result,
    {
        ASTNode { value, store_in_ans: false, print_result: false }
    }
}

/// A binary operator.
#[derive(Debug, Clone, Copy, PartialEq, Eq, Structural)]
pub enum Operator {
    Add,
    Subtract,
    Multiply,
    Divide,
    Assign,
}

/// The binding strength of an operator: higher binds tighter.
pub open spec fn precedence_of(op: Operator) -> u8 {
    match op {
        Operator::Multiply | Operator::Divide => 3,
        Operator::Add | Operator::Subtract => 2,
        Operator::Assign => 1,
    }
}

/// The operator that a token stands for, if it stands for one.
pub open spec fn operator_of<T>(t: Token<T>) -> Option<Operator> {
    match t {
        Token::Plus => Some(Operator::Add),
        Token::Minus => Some(Operator::Subtract),
        Token::Asterisk => Some(Operator::Multiply),
        Token::Slash => Some(Operator::Divide),
        Token::Equal => Some(Operator::Assign),
        _ => None,
    }
}

impl Operator {
    pub fn precedence(&self) -> (r: u8)
        ensures
            r == precedence_of(*self),
    {
        match self {
            Operator::Multiply | Operator::Divide => 3,
            Operator::Add | Operator::Subtract => 2,
            Operator::Assign => 1,
        }
    }

    /// The token that spells the operator.
    pub fn tokenize<T>(&self) -> (r: Token<T>)
        ensures
            operator_of(r) == Some(*self),
    {
        match self {
            Operator::Add => Token::Plus,
            Operator::Subtract => Token::Minus,
            Operator::Multiply => Token::Asterisk,
            Operator::Divide => Token::Slash,
            Operator::Assign => Token::Equal,
        }
    }

    /// The operator that `t` spells; any other token is unexpected.
    pub fn from_token<T: Scalar>(t: &Token<T>) -> (r: Result<Operator, ParsingError>)
        ensures
            operator_of(*t) is Some ==> r == Ok::<Operator, ParsingError>(operator_of(*t)->0),
            operator_of(*t) is None ==> (r matches Err(
                ParsingError::UnexpectedToken { expected: Some(e), found: Some(f) },
            ) && e@ == "Binary Operator"@ && describes(*t, f@)),
    {
        match t {
            Token::Plus => Ok(Operator::Add),
            Token::Minus => Ok(Operator::Subtract),
            Token::Asterisk => Ok(Operator::Multiply),
            Token::Slash => Ok(Operator::Divide),
            Token::Equal => Ok(Operator::Assign),
            _ => Err(
                ParsingError::UnexpectedToken {
                    expected: Some(String::from_str("Binary Operator")),
                    found: Some(t.stringify()),
                },
            ),
        }
    }
}

} // verus!

verus! {

/// The height of the operand stack after one element of a postfix sequence
/// is evaluated on a stack of height `h`, or `None` when an operator would
/// find fewer than two operands.
pub open spec fn postfix_step<T>(v: ASTNodeValue<T>, h: nat) -> Option<nat> {
    if v is Operator {
        if h >= 2 {
            Some((h - 1) as nat)
        } else {
            None
        }
    } else {
        Some(h + 1)
    }
}

/// Evaluates the shape of a postfix sequence stored back to front (its last
/// element comes first) on a stack of height `h`: the final height, or
/// `None` when some operator lacks operands.
pub open spec fn postfix_run<T>(s: Seq<ASTNodeValue<T>>, h: nat) -> Option<nat>
    decreases s.len(),
{
    if s.len() == 0 {
        Some(h)
    } else {
        match postfix_step(s.last(), h) {
            Some(h2) => postfix_run(s.drop_last(), h2),
            None => None,
        }
    }
}

/// Placing `v` in front of a stored sequence evaluates it last.
pub proof fn lemma_postfix_run_prepend<T>(v: ASTNodeValue<T>, s: Seq<ASTNodeValue<T>>, h: nat)
    ensures
        postfix_run(seq![v] + s, h) == match postfix_run(s, h) {
            Some(m) => postfix_step(v, m),
            None => None,
        },
    decreases s.len(),
{
    let t = seq![v] + s;
    if s.len() == 0 {
        assert(t.drop_last() =~= Seq::<ASTNodeValue<T>>::empty());
        assert(t.last() == v);
        match postfix_step(v, h) {
            Some(h2) => assert(postfix_run(t.drop_last(), h2) == Some(h2)),
            None => {},
        }
    } else {
        assert(t.last() == s.last());
        assert(t.drop_last() =~= seq![v] + s.drop_last());
        match postfix_step(s.last(), h) {
            Some(h2) => lemma_postfix_run_prepend(v, s.drop_last(), h2),
            None => {},
        }
    }
}

/// A non-empty well shaped postfix sequence leaves at least one value.
pub proof fn lemma_postfix_run_positive<T>(s: Seq<ASTNodeValue<T>>, h: nat)
    requires
        s.len() > 0,
        postfix_run(s, h) is Some,
    ensures
        postfix_run(s, h)->0 >= 1,
    decreases s.len(),
{
    let h2 = postfix_step(s.last(), h)->0;
    if s.len() > 1 {
        lemma_postfix_run_positive(s.drop_last(), h2);
    } else {
        assert(s.drop_last().len() == 0);
        assert(postfix_run(s.drop_last(), h2) == Some(h2));
    }
}

/// In a postfix sequence of two or more elements that leaves one value, the
/// element evaluated last (stored first) is an operator.
pub proof fn lemma_postfix_ends_with_operator<T>(s: Seq<ASTNodeValue<T>>)
    requires
        s.len() >= 2,
        postfix_run(s, 0) == Some(1nat),
    ensures
        s[0] is Operator,
{
    let rest = s.drop_first();
    assert(s =~= seq![s[0]] + rest);
    lemma_postfix_run_prepend(s[0], rest, 0);
    if postfix_run(rest, 0) is Some {
        lemma_postfix_run_positive(rest, 0);
    }
}

/// Every row of a matrix literal has the same, positive, number of cells.
pub open spec fn rectangular<T>(rows: Seq<Vec<ASTNode<T>>>) -> bool {
    forall|i: int| 0 <= i < rows.len() ==> #[trigger] rows[i]@.len() == rows[0]@.len() && rows[i]@.len() > 0
}

/// The shape that the parser guarantees of every expression it produces:
/// matrix literals are rectangular and their cells well formed; postfix
/// sequences have at least two elements, are flat (no nested postfix
/// sequence), and give each operator two operands and leave exactly one
/// value; an operator never stands alone.
pub open spec fn wf_value<T>(v: ASTNodeValue<T>) -> bool
    decreases v,
{
    match v {
        ASTNodeValue::Variable(_) => true,
        ASTNodeValue::Number(_) => true,
        ASTNodeValue::Operator(_) => false,
        ASTNodeValue::Matrix(rows) => rectangular(rows@) && forall|i: int, j: int|
            0 <= i < rows@.len() && 0 <= j < rows@[i]@.len() ==> wf_value(
                #[trigger] rows@[i]@[j].value,
            ),
        ASTNodeValue::ArithmaticExpr(post) => post@.len() >= 2 && postfix_run(post@, 0) == Some(1nat)
            && forall|k: int|
            0 <= k < post@.len() ==> !(#[trigger] post@[k] is ArithmaticExpr) && (post@[k] is Matrix
                ==> wf_value(post@[k])),
    }
}

/// Whether a statement's value becomes `ans`: literals and computations do,
/// a bare variable and an assignment do not.
pub open spec fn stores_in_ans<T>(v: ASTNodeValue<T>) -> bool {
    match v {
        ASTNodeValue::Number(_) => true,
        ASTNodeValue::Matrix(_) => true,
        ASTNodeValue::ArithmaticExpr(post) => !(exists|k: int|
            0 <= k < post@.len() && #[trigger] post@[k] == ASTNodeValue::<T>::Operator(
                Operator::Assign,
            )),
        _ => false,
    }
}

} // verus!
