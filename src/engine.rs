use vstd::prelude::*;

use crate::ast::{lemma_postfix_ends_with_operator, postfix_run, stores_in_ans, wf_value, ASTNode, ASTNodeValue, Operator};
use crate::errors::EvaluationError;
use crate::matrix::{has_shape, operator_value, Matrix};
use crate::runtime::{
    additive_outcome, is_resolved, product_outcome, quotient_outcome, value_outcome, RuntimeVal, Value,
};
use crate::scalar::Scalar;

verus! {

broadcast use vstd::std_specs::vec::group_vec_axioms;

/// One variable and its value.
struct Binding<T> {
    name: String,
    value: RuntimeVal<T>,
}

/// The value of `k` in a list of bindings: the latest binding wins.
spec fn lookup_in<T>(s: Seq<Binding<T>>, k: Seq<char>) -> Option<Value<T>>
    decreases s.len(),
{
    if s.len() == 0 {
        None
    } else if s.last().name@ == k {
        Some(s.last().value@)
    } else {
        lookup_in(s.drop_last(), k)
    }
}

/// Every binding in `s` holds a number or a well formed matrix.
spec fn all_resolved<T>(s: Seq<Binding<T>>) -> bool {
    forall|i: int| 0 <= i < s.len() ==> is_resolved(#[trigger] s[i].value)
}

/// The name under which the value of the last computation is kept.
pub open spec fn ans_name() -> Seq<char> {
    "ans"@
}

/// Whether a postfix sequence holds `=`.
pub open spec fn assigns<T>(post: Seq<ASTNodeValue<T>>) -> bool {
    exists|i: int| 0 <= i < post.len() && #[trigger] post[i] == ASTNodeValue::<T>::Operator(Operator::Assign)
}

/// Whether a postfix sequence names variable `k` as an operand.
pub open spec fn mentions<T>(post: Seq<ASTNodeValue<T>>, k: Seq<char>) -> bool {
    exists|i: int| 0 <= i < post.len() && (#[trigger] post[i] is Variable) && post[i]->Variable_0@ == k
}

/// Whether evaluating `v` surely leaves variable `k` alone: only a postfix
/// sequence that holds `=` binds variables, and only ones it names; a
/// matrix cell that stores its value binds `ans`.
pub open spec fn untouched_by<T>(v: ASTNodeValue<T>, k: Seq<char>) -> bool
    decreases v,
{
    match v {
        ASTNodeValue::Matrix(rows) => forall|i: int, j: int|
            0 <= i < rows@.len() && 0 <= j < rows@[i]@.len() ==> !((#[trigger] rows@[i]@[j]).store_in_ans
                && k == ans_name()) && untouched_by(rows@[i]@[j].value, k),
        ASTNodeValue::ArithmaticExpr(post) => (forall|i: int|
            0 <= i < post@.len() ==> untouched_by(#[trigger] post@[i], k)) && !(assigns(post@) && mentions(
            post@,
            k,
        )),
        _ => true,
    }
}

/// Whether evaluating the statement `n` surely leaves variable `k` alone.
pub open spec fn node_untouched_by<T>(n: ASTNode<T>, k: Seq<char>) -> bool {
    untouched_by(n.value, k) && !(n.store_in_ans && k == ans_name())
}

/// The variable environment and the evaluator of statements.
///
/// Bindings are kept in the order they were made and the latest binding of
/// a name is its value, so that undoing a failed statement is dropping the
/// bindings it made.
pub struct Engine<T> {
    variables: Vec<Binding<T>>,
}

impl<T> Engine<T> {
    /// The value of variable `k`, if it is bound.
    pub closed spec fn var(&self, k: Seq<char>) -> Option<Value<T>> {
        lookup_in(self.variables@, k)
    }

    pub closed spec fn wf(&self) -> bool {
        all_resolved(self.variables@)
    }

    /// The bindings of `old_e` are still those of `e`.
    pub closed spec fn extends(old_e: Self, e: Self) -> bool {
        &&& old_e.variables@.len() <= e.variables@.len()
        &&& forall|i: int| 0 <= i < old_e.variables@.len() ==> #[trigger] e.variables@[i] == old_e.variables@[i]
    }
}

impl<T> Engine<T> {
    /// `e` extends `old_e` with bindings of names that satisfy `allowed`
    /// only.
    pub closed spec fn binds_only(old_e: Self, e: Self, allowed: spec_fn(Seq<char>) -> bool) -> bool {
        &&& Self::extends(old_e, e)
        &&& forall|i: int|
            old_e.variables@.len() <= i < e.variables@.len() ==> allowed(#[trigger] e.variables@[i].name@)
    }

    /// A variable that no new binding names keeps its value.
    pub proof fn lemma_binds_only(old_e: Self, e: Self, allowed: spec_fn(Seq<char>) -> bool, k: Seq<char>)
        requires
            Self::binds_only(old_e, e, allowed),
            !allowed(k),
        ensures
            e.var(k) == old_e.var(k),
    {
        lemma_lookup_prefix(e.variables@, old_e.variables@.len(), k);
        assert(e.variables@.subrange(0, old_e.variables@.len() as int) =~= old_e.variables@);
    }
}

impl<T> Engine<T> {
    /// Two steps that each bind only allowed names bind only allowed names.
    proof fn lemma_binds_only_trans(
        a: Self,
        b: Self,
        c: Self,
        p: spec_fn(Seq<char>) -> bool,
        q: spec_fn(Seq<char>) -> bool,
    )
        requires
            Self::binds_only(a, b, p),
            Self::binds_only(b, c, q),
            forall|k: Seq<char>| #[trigger] q(k) ==> p(k),
        ensures
            Self::binds_only(a, c, p),
    {
        assert forall|i: int| a.variables@.len() <= i < c.variables@.len() implies p(
            #[trigger] c.variables@[i].name@,
        ) by {
            if i < b.variables@.len() {
                assert(c.variables@[i] == b.variables@[i]);
            } else {
                assert(q(c.variables@[i].name@));
            }
        }
    }
}

/// Bindings after the first `n` that do not name `k` do not change its
/// value.
proof fn lemma_lookup_prefix<T>(s: Seq<Binding<T>>, n: nat, k: Seq<char>)
    requires
        n <= s.len(),
        forall|i: int| n <= i < s.len() ==> (#[trigger] s[i]).name@ != k,
    ensures
        lookup_in(s, k) == lookup_in(s.subrange(0, n as int), k),
    decreases s.len(),
{
    if s.len() > n {
        assert(s.last() == s[s.len() - 1]);
        lemma_lookup_prefix(s.drop_last(), n, k);
        assert(s.drop_last().subrange(0, n as int) =~= s.subrange(0, n as int));
    } else {
        assert(s.subrange(0, n as int) =~= s);
    }
}

/// `a` and `b` bind the same variables to the same values.
pub open spec fn same_vars<T>(a: Engine<T>, b: Engine<T>) -> bool {
    forall|k: Seq<char>| #[trigger] a.var(k) == b.var(k)
}

/// `b` is `a` with `k` bound to `v`.
pub open spec fn bound_in<T>(a: Engine<T>, b: Engine<T>, k: Seq<char>, v: Value<T>) -> bool {
    &&& b.var(k) == Some(v)
    &&& forall|j: Seq<char>| j != k ==> #[trigger] b.var(j) == a.var(j)
}

impl<T: Scalar> Engine<T> {
    /// An empty environment.
    pub fn new() -> (r: Self)
        ensures
            r.wf(),
            forall|k: Seq<char>| #[trigger] r.var(k) is None,
    {
        Engine { variables: Vec::new() }
    }

    /// Binds `var_name` to `var_value`, returning the value it had before.
    pub fn assign_var(&mut self, var_name: String, var_value: RuntimeVal<T>) -> (r: Option<RuntimeVal<T>>)
        requires
            old(self).wf(),
            is_resolved(var_value),
        ensures
            final(self).wf(),
            bound_in(*old(self), *final(self), var_name@, var_value@),
            Self::extends(*old(self), *final(self)),
            Self::binds_only(*old(self), *final(self), |k: Seq<char>| k == var_name@),
            match r {
                Some(v) => old(self).var(var_name@) == Some(v@) && is_resolved(v),
                None => old(self).var(var_name@) is None,
            },
    {
        let previous = self.get_var(&var_name);
        let ghost before = self.variables@;
        self.variables.push(Binding { name: var_name, value: var_value });
        proof {
            assert(self.variables@.drop_last() == before);
        }
        previous
    }

    /// The value of `var_name`, if it is bound.
    pub fn get_var(&self, var_name: &String) -> (r: Option<RuntimeVal<T>>)
        requires
            self.wf(),
        ensures
            match r {
                Some(v) => self.var(var_name@) == Some(v@) && is_resolved(v),
                None => self.var(var_name@) is None,
            },
    {
        let mut i = self.variables.len();
        proof {
            assert(self.variables@.subrange(0, i as int) =~= self.variables@);
        }
        while i > 0
            invariant
                i <= self.variables@.len(),
                all_resolved(self.variables@),
                lookup_in(self.variables@, var_name@) == lookup_in(self.variables@.subrange(0, i as int), var_name@),
            decreases i,
        {
            let ghost sub = self.variables@.subrange(0, i as int);
            proof {
                assert(sub.last() == self.variables@[i - 1]);
                assert(sub.drop_last() =~= self.variables@.subrange(0, i - 1));
            }
            if self.variables[i - 1].name == *var_name {
                return Some(self.variables[i - 1].value.duplicate());
            }
            i = i - 1;
        }
        proof {
            assert(self.variables@.subrange(0, 0) =~= Seq::<Binding<T>>::empty());
        }
        None
    }

    /// Forgets the bindings made after the first `len`.
    fn restore(&mut self, len: usize)
        requires
            old(self).wf(),
            len <= old(self).variables@.len(),
        ensures
            final(self).wf(),
            final(self).variables@ == old(self).variables@.subrange(0, len as int),
    {
        self.variables.truncate(len);
    }
}

} // verus!

verus! {

/// Every entry of an operand stack is a value or a variable's name.
spec fn stack_ok<T>(s: Seq<RuntimeVal<T>>) -> bool {
    forall|i: int| 0 <= i < s.len() ==> (#[trigger] s[i] is Variable || is_resolved(s[i]))
}

/// Every cell of a matrix literal is a number.
pub open spec fn numeric_cells<T>(rows: Seq<Vec<ASTNode<T>>>) -> bool {
    forall|i: int, j: int|
        0 <= i < rows.len() && 0 <= j < rows[i]@.len() ==> (#[trigger] rows[i]@[j]).value is Number
}

/// The number in cell `(i, j)` of a numeric matrix literal.
pub open spec fn literal_cell<T>(rows: Seq<Vec<ASTNode<T>>>, i: int, j: int) -> T {
    rows[i]@[j].value->Number_0
}

/// The value of a numeric matrix literal: the empty matrix, the number of a
/// one by one literal, or else the matrix of its cells.
pub open spec fn literal_outcome<T>(rows: Seq<Vec<ASTNode<T>>>, r: Result<RuntimeVal<T>, EvaluationError>) -> bool {
    if rows.len() == 0 {
        r matches Ok(RuntimeVal::Matrix(m)) && has_shape(m, 0, 0)
    } else if rows.len() == 1 && rows[0]@.len() == 1 {
        r matches Ok(v) && v@ == Value::Scalar(literal_cell(rows, 0, 0))
    } else {
        r matches Ok(RuntimeVal::Matrix(m)) && has_shape(m, rows.len(), rows[0]@.len()) && forall|i: int, j: int|
            0 <= i < rows.len() && 0 <= j < rows[0]@.len() ==> #[trigger] m.cell(i, j) == literal_cell(rows, i, j)
    }
}

/// A postfix sequence of numbers, of variables bound to numbers in `e`, and
/// of arithmetic operators other than `=`.
pub open spec fn scalar_arithmetic<T>(post: Seq<ASTNodeValue<T>>, e: Engine<T>) -> bool {
    forall|i: int|
        0 <= i < post.len() ==> match #[trigger] post[i] {
            ASTNodeValue::Number(_) => true,
            ASTNodeValue::Variable(name) => e.var(name@) matches Some(Value::Scalar(_)),
            ASTNodeValue::Operator(op) => op != Operator::Assign,
            _ => false,
        }
}

/// The postfix sequence of `x = n` for a name `x` and a number `n`, stored
/// back to front.
pub open spec fn literal_assignment<T>(post: Seq<ASTNodeValue<T>>) -> bool {
    &&& post.len() == 3
    &&& post[0] == ASTNodeValue::<T>::Operator(Operator::Assign)
    &&& post[1] is Number
    &&& post[2] is Variable
}

/// The number that a number or a name stands for in `e`.
pub open spec fn element_number<T: Scalar>(v: ASTNodeValue<T>, e: Engine<T>) -> T {
    match v {
        ASTNodeValue::Number(n) => n,
        ASTNodeValue::Variable(name) => match e.var(name@) {
            Some(Value::Scalar(x)) => x,
            _ => T::spec_zero(),
        },
        _ => T::spec_zero(),
    }
}

/// The number that an operand on the stack stands for in `e`.
pub open spec fn operand_number<T: Scalar>(v: RuntimeVal<T>, e: Engine<T>) -> T {
    match v {
        RuntimeVal::Scalar(x) => x,
        RuntimeVal::Variable(name) => match e.var(name@) {
            Some(Value::Scalar(x)) => x,
            _ => T::spec_zero(),
        },
        _ => T::spec_zero(),
    }
}

/// The numbers that the operand stack stands for in `e`.
pub open spec fn stack_numbers<T: Scalar>(s: Seq<RuntimeVal<T>>, e: Engine<T>) -> Seq<T> {
    s.map_values(|v: RuntimeVal<T>| operand_number(v, e))
}

/// Runs a postfix sequence stored back to front (its last element first) on
/// a stack of numbers, with names looked up in `e`: an operand is pushed, an
/// operator replaces the top two numbers `a`, `b` by `a op b`.
pub open spec fn postfix_numbers<T: Scalar>(post: Seq<ASTNodeValue<T>>, e: Engine<T>, stack: Seq<T>) -> Seq<T>
    decreases post.len(),
{
    if post.len() == 0 {
        stack
    } else {
        let next = match post.last() {
            ASTNodeValue::Operator(op) => if stack.len() >= 2 {
                stack.subrange(0, stack.len() - 2).push(
                    operator_value(op, stack[stack.len() - 2], stack[stack.len() - 1]),
                )
            } else {
                stack
            },
            _ => stack.push(element_number(post.last(), e)),
        };
        postfix_numbers(post.drop_last(), e, next)
    }
}

/// The number that a postfix sequence of numbers, names bound to numbers
/// and arithmetic operators gives in `e`.
pub open spec fn postfix_value<T: Scalar>(post: Seq<ASTNodeValue<T>>, e: Engine<T>) -> T {
    postfix_numbers(post, e, Seq::<T>::empty())[0]
}

/// The postfix sequence of `a = b` for two numbers, stored back to front.
pub open spec fn number_assignment<T>(post: Seq<ASTNodeValue<T>>) -> bool {
    &&& post.len() == 3
    &&& post[0] == ASTNodeValue::<T>::Operator(Operator::Assign)
    &&& post[1] is Number
    &&& post[2] is Number
}

/// A matrix literal whose cells are numbers, and at least once a literal
/// of numbers that is not one by one: a matrix inside a matrix.
pub open spec fn nested_literal<T>(rows: Seq<Vec<ASTNode<T>>>) -> bool {
    &&& forall|i: int, j: int|
        0 <= i < rows.len() && 0 <= j < rows[i]@.len() ==> match (#[trigger] rows[i]@[j]).value {
            ASTNodeValue::Number(_) => true,
            ASTNodeValue::Matrix(inner) => wf_value(rows[i]@[j].value) && numeric_cells(inner@) && !(inner@.len()
                == 1 && inner@[0]@.len() == 1),
            _ => false,
        }
    &&& exists|i: int, j: int| 0 <= i < rows.len() && 0 <= j < rows[i]@.len() && (#[trigger] rows[i]@[j]).value is Matrix
}

/// A postfix sequence of numbers, of names that are unbound or hold
/// numbers in `e`, and of operators, where `=` can only be the operator
/// applied last (stored first).
pub open spec fn scalar_or_unbound<T>(post: Seq<ASTNodeValue<T>>, e: Engine<T>) -> bool {
    forall|i: int|
        0 <= i < post.len() ==> match #[trigger] post[i] {
            ASTNodeValue::Number(_) => true,
            ASTNodeValue::Variable(name) => e.var(name@) is None || e.var(name@) matches Some(Value::Scalar(_)),
            ASTNodeValue::Operator(op) => op != Operator::Assign || i == 0,
            _ => false,
        }
}

/// The number an operand stands for in `e`, or the name that is unbound.
pub open spec fn slot_number<T: Scalar>(v: ASTNodeValue<T>, e: Engine<T>) -> Result<T, String> {
    match v {
        ASTNodeValue::Number(n) => Ok(n),
        ASTNodeValue::Variable(name) => match e.var(name@) {
            Some(Value::Scalar(x)) => Ok(x),
            _ => Err(name),
        },
        _ => Ok(T::spec_zero()),
    }
}

/// Runs a postfix sequence stored back to front, keeping operands as they
/// are until an operator needs them: it looks up its right operand, then
/// its left one (for `=`, the left operand stays as it is), and a name that
/// is not bound stops the run with that name.
pub open spec fn postfix_lookup_run<T: Scalar>(
    post: Seq<ASTNodeValue<T>>,
    e: Engine<T>,
    stack: Seq<ASTNodeValue<T>>,
) -> Result<Seq<ASTNodeValue<T>>, String>
    decreases post.len(),
{
    if post.len() == 0 {
        Ok(stack)
    } else {
        match post.last() {
            ASTNodeValue::Operator(op) => if stack.len() >= 2 {
                match slot_number(stack.last(), e) {
                    Err(name) => Err(name),
                    Ok(b) => if op == Operator::Assign {
                        postfix_lookup_run(post.drop_last(), e, stack.drop_last())
                    } else { match slot_number(stack[stack.len() - 2], e) {
                        Err(name) => Err(name),
                        Ok(a) => postfix_lookup_run(
                            post.drop_last(),
                            e,
                            stack.subrange(0, stack.len() - 2).push(ASTNodeValue::Number(operator_value(op, a, b))),
                        ),
                    } },
                }
            } else {
                Ok(stack)
            },
            _ => postfix_lookup_run(post.drop_last(), e, stack.push(post.last())),
        }
    }
}

/// The operand stack as expressions: numbers and names.
pub open spec fn stack_slots<T>(s: Seq<RuntimeVal<T>>) -> Seq<ASTNodeValue<T>> {
    s.map_values(
        |v: RuntimeVal<T>|
            match v {
                RuntimeVal::Scalar(x) => ASTNodeValue::Number(x),
                RuntimeVal::Variable(name) => ASTNodeValue::Variable(name),
                _ => ASTNodeValue::Operator(Operator::Assign),
            },
    )
}

/// The value that an operand of a postfix sequence stands for in `e`.
pub open spec fn operand_value<T>(v: ASTNodeValue<T>, e: Engine<T>) -> Option<Value<T>> {
    match v {
        ASTNodeValue::Number(n) => Some(Value::Scalar(n)),
        ASTNodeValue::Variable(name) => e.var(name@),
        _ => None,
    }
}

/// An operand as it is pushed on the operand stack.
pub open spec fn pushed<T: Scalar>(v: ASTNodeValue<T>) -> RuntimeVal<T> {
    match v {
        ASTNodeValue::Number(n) => RuntimeVal::Scalar(n),
        ASTNodeValue::Variable(name) => RuntimeVal::Variable(name),
        _ => RuntimeVal::Scalar(T::spec_zero()),
    }
}

/// The outcome of an arithmetic operator on two values, as
/// `RuntimeVal::try_add`, `try_sub`, `try_mul` and `try_div` give it.
pub open spec fn arithmetic_outcome<T: Scalar>(
    op: Operator,
    a: RuntimeVal<T>,
    b: RuntimeVal<T>,
    out: Result<RuntimeVal<T>, EvaluationError>,
) -> bool {
    &&& value_outcome(op, a, b, out)
    &&& match op {
        Operator::Add | Operator::Subtract => additive_outcome(a, b, out),
        Operator::Multiply => product_outcome(a, b, out),
        Operator::Divide => quotient_outcome(a, b, out),
        Operator::Assign => false,
    }
}

/// The postfix sequence of `x op y`: an arithmetic operator on two operands
/// that have values in `e` (numbers, or names bound to numbers or
/// matrices).
pub open spec fn binary_operation<T>(post: Seq<ASTNodeValue<T>>, e: Engine<T>) -> bool {
    &&& post.len() == 3
    &&& post[0] is Operator
    &&& post[0]->Operator_0 != Operator::Assign
    &&& operand_value(post[1], e) is Some
    &&& operand_value(post[2], e) is Some
}

/// The result of `x op y` is the operator's outcome on the values of `x`
/// and `y`.
pub open spec fn binary_outcome<T: Scalar>(
    post: Seq<ASTNodeValue<T>>,
    e: Engine<T>,
    out: Result<RuntimeVal<T>, EvaluationError>,
) -> bool {
    exists|a: RuntimeVal<T>, b: RuntimeVal<T>|
        is_resolved(a) && is_resolved(b) && Some(a@) == operand_value(post[2], e) && Some(b@) == operand_value(
            post[1],
            e,
        ) && #[trigger] arithmetic_outcome(post[0]->Operator_0, a, b, out)
}

/// What an evaluation may return: a value, or the name of a bound variable
/// (the target of an assignment).
pub open spec fn valid_result<T>(e: Engine<T>, v: RuntimeVal<T>) -> bool {
    is_resolved(v) || (v matches RuntimeVal::Variable(name) && e.var(name@) is Some)
}

impl<T: Scalar> Engine<T> {
    /// Evaluates one statement. Variables are looked up when an operator
    /// needs their value; the left side of `=` is bound instead. When the
    /// statement asks for it, its value is also bound to `ans`. An error
    /// leaves every variable as it was, and success changes only variables
    /// that the statement names (and `ans`). Arithmetic on numbers and on
    /// variables that hold numbers always gives a number; a matrix literal
    /// of numbers gives exactly that matrix; `x = n` binds `x` to `n`.
    pub fn evaluate(&mut self, ast: &ASTNode<T>) -> (r: Result<RuntimeVal<T>, EvaluationError>)
        requires
            old(self).wf(),
        ensures
            final(self).wf(),
            Self::extends(*old(self), *final(self)),
            r is Err ==> same_vars(*old(self), *final(self)),
            r matches Ok(v) ==> valid_result(*final(self), v),
            wf_value(ast.value) ==> r != Err::<RuntimeVal<T>, EvaluationError>(
                EvaluationError::InvalidArithmaticExpression,
            ),
            ast.value matches ASTNodeValue::Number(n) ==> r matches Ok(v) && v@ == Value::Scalar(n) && if ast.store_in_ans {
                bound_in(*old(self), *final(self), ans_name(), Value::Scalar(n))
            } else {
                same_vars(*old(self), *final(self))
            },
            ast.value matches ASTNodeValue::Variable(name) ==> same_vars(*old(self), *final(self)) && match old(self).var(name@) {
                Some(x) => r matches Ok(v) && v@ == x,
                None => r == Err::<RuntimeVal<T>, EvaluationError>(EvaluationError::NonexistantVar(name)),
            },
            r matches Ok(v) ==> (ast.store_in_ans && !(ast.value is Variable) && is_resolved(v) ==> final(self).var(ans_name()) == Some(v@)),
            Self::binds_only(*old(self), *final(self), |k: Seq<char>| !node_untouched_by(*ast, k)),
            forall|k: Seq<char>| node_untouched_by(*ast, k) ==> #[trigger] final(self).var(k) == old(self).var(k),
            match ast.value {
                ASTNodeValue::Matrix(rows) => (wf_value(ast.value) && numeric_cells(rows@) ==> literal_outcome(rows@, r))
                    && (wf_value(ast.value) && nested_literal(rows@) ==> r == Err::<RuntimeVal<T>, EvaluationError>(
                    EvaluationError::NestedMatrices,
                )),
                ASTNodeValue::ArithmaticExpr(post) => (wf_value(ast.value) && scalar_arithmetic(post@, *old(self)) ==> r
                    == Ok::<RuntimeVal<T>, EvaluationError>(RuntimeVal::Scalar(postfix_value(post@, *old(self))))
                    && if ast.store_in_ans {
                    bound_in(*old(self), *final(self), ans_name(), Value::Scalar(postfix_value(post@, *old(self))))
                } else {
                    same_vars(*old(self), *final(self))
                })
                    && (number_assignment(post@) ==> r == Err::<RuntimeVal<T>, EvaluationError>(
                    EvaluationError::AssignmentToNonVariable,
                )) && (wf_value(ast.value) && scalar_or_unbound(post@, *old(self)) ==> match postfix_lookup_run(
                    post@,
                    *old(self),
                    Seq::empty(),
                ) {
                    Err(name) => r == Err::<RuntimeVal<T>, EvaluationError>(EvaluationError::NonexistantVar(name)),
                    Ok(_) => !assigns(post@) ==> r matches Ok(RuntimeVal::Scalar(_)),
                }) && (binary_operation(post@, *old(self)) ==> binary_outcome(post@, *old(self), r)) && (literal_assignment(post@) ==> (r matches Ok(RuntimeVal::Variable(name)) && name@
                    == post@[2]->Variable_0@ && bound_in(
                    *old(self),
                    *final(self),
                    name@,
                    Value::Scalar(post@[1]->Number_0),
                ))),
                _ => true,
            },
        decreases ast, 1int,
    {
        let mark = self.variables.len();
        let r = self.evaluate_node(ast);
        if r.is_err() {
            self.restore(mark);
            proof {
                assert(self.variables@ =~= old(self).variables@);
            }
        }
        proof {
            assert forall|k: Seq<char>| node_untouched_by(*ast, k) implies #[trigger] self.var(k) == old(self).var(k) by {
                Self::lemma_binds_only(*old(self), *self, |k: Seq<char>| !node_untouched_by(*ast, k), k);
            }
        }
        r
    }

    fn evaluate_node(&mut self, ast: &ASTNode<T>) -> (r: Result<RuntimeVal<T>, EvaluationError>)
        requires
            old(self).wf(),
        ensures
            final(self).wf(),
            Self::extends(*old(self), *final(self)),
            r matches Ok(v) ==> valid_result(*final(self), v),
            wf_value(ast.value) ==> r != Err::<RuntimeVal<T>, EvaluationError>(
                EvaluationError::InvalidArithmaticExpression,
            ),
            ast.value matches ASTNodeValue::Number(n) ==> r matches Ok(v) && v@ == Value::Scalar(n) && if ast.store_in_ans {
                bound_in(*old(self), *final(self), ans_name(), Value::Scalar(n))
            } else {
                final(self).variables@ == old(self).variables@
            },
            ast.value matches ASTNodeValue::Variable(name) ==> final(self).variables@ == old(self).variables@ && match old(self).var(name@) {
                Some(x) => r matches Ok(v) && v@ == x,
                None => r == Err::<RuntimeVal<T>, EvaluationError>(EvaluationError::NonexistantVar(name)),
            },
            r matches Ok(v) ==> (ast.store_in_ans && !(ast.value is Variable) && is_resolved(v) ==> final(self).var(ans_name()) == Some(v@)),
            Self::binds_only(*old(self), *final(self), |k: Seq<char>| !node_untouched_by(*ast, k)),
            match ast.value {
                ASTNodeValue::Matrix(rows) => (wf_value(ast.value) && numeric_cells(rows@) ==> literal_outcome(rows@, r))
                    && (wf_value(ast.value) && nested_literal(rows@) ==> r == Err::<RuntimeVal<T>, EvaluationError>(
                    EvaluationError::NestedMatrices,
                )),
                ASTNodeValue::ArithmaticExpr(post) => (wf_value(ast.value) && scalar_arithmetic(post@, *old(self)) ==> r
                    == Ok::<RuntimeVal<T>, EvaluationError>(RuntimeVal::Scalar(postfix_value(post@, *old(self))))
                    && if ast.store_in_ans {
                    bound_in(*old(self), *final(self), ans_name(), Value::Scalar(postfix_value(post@, *old(self))))
                } else {
                    same_vars(*old(self), *final(self))
                })
                    && (number_assignment(post@) ==> r == Err::<RuntimeVal<T>, EvaluationError>(
                    EvaluationError::AssignmentToNonVariable,
                )) && (wf_value(ast.value) && scalar_or_unbound(post@, *old(self)) ==> match postfix_lookup_run(
                    post@,
                    *old(self),
                    Seq::empty(),
                ) {
                    Err(name) => r == Err::<RuntimeVal<T>, EvaluationError>(EvaluationError::NonexistantVar(name)),
                    Ok(_) => !assigns(post@) ==> r matches Ok(RuntimeVal::Scalar(_)),
                }) && (binary_operation(post@, *old(self)) ==> binary_outcome(post@, *old(self), r)) && (literal_assignment(post@) ==> (r matches Ok(RuntimeVal::Variable(name)) && name@
                    == post@[2]->Variable_0@ && bound_in(
                    *old(self),
                    *final(self),
                    name@,
                    Value::Scalar(post@[1]->Number_0),
                ))),
                _ => true,
            },
        decreases ast, 0int,
    {
        match &ast.value {
            ASTNodeValue::Number(n) => {
                let res = RuntimeVal::Scalar(*n);
                if ast.store_in_ans {
                    self.assign_var(String::from_str("ans"), res.duplicate());
                }
                Ok(res)
            },
            ASTNodeValue::Matrix(rows) => {
                let res = self.evaluate_matrix(rows)?;
                if ast.store_in_ans {
                    self.assign_var(String::from_str("ans"), res.duplicate());
                }
                Ok(res)
            },
            ASTNodeValue::Variable(var_name) => match self.get_var(var_name) {
                Some(value) => Ok(value),
                None => Err(EvaluationError::NonexistantVar(var_name.clone())),
            },
            ASTNodeValue::ArithmaticExpr(rpn) => {
                let res = self.evaluate_postfix(rpn)?;
                if let RuntimeVal::Variable(var_name) = &res {
                    if self.get_var(var_name).is_none() {
                        return Err(EvaluationError::NonexistantVar(var_name.clone()));
                    }
                } else if ast.store_in_ans {
                    self.assign_var(String::from_str("ans"), res.duplicate());
                }
                Ok(res)
            },
            ASTNodeValue::Operator(_) => Err(EvaluationError::InvalidArithmaticExpression),
        }
    }
}

} // verus!

verus! {

impl<T: Scalar> Engine<T> {
    /// The value of an operand: a variable's name is looked up, anything
    /// else is already a value.
    fn resolve(&self, v: RuntimeVal<T>) -> (r: Result<RuntimeVal<T>, EvaluationError>)
        requires
            self.wf(),
            v is Variable || is_resolved(v),
        ensures
            r matches Ok(x) ==> is_resolved(x),
            match v {
                RuntimeVal::Variable(name) => match self.var(name@) {
                    Some(x) => r matches Ok(y) && y@ == x,
                    None => r == Err::<RuntimeVal<T>, EvaluationError>(EvaluationError::NonexistantVar(name)),
                },
                _ => r == Ok::<RuntimeVal<T>, EvaluationError>(v),
            },
    {
        match v {
            RuntimeVal::Variable(name) => match self.get_var(&name) {
                Some(x) => Ok(x),
                None => Err(EvaluationError::NonexistantVar(name)),
            },
            other => Ok(other),
        }
    }

    /// Evaluates the cells of a matrix literal, which must all be numbers.
    /// A one by one literal is the number it holds.
    fn evaluate_matrix(&mut self, rows: &Vec<Vec<ASTNode<T>>>) -> (r: Result<RuntimeVal<T>, EvaluationError>)
        requires
            old(self).wf(),
        ensures
            final(self).wf(),
            Self::extends(*old(self), *final(self)),
            r matches Ok(v) ==> is_resolved(v),
            wf_value(ASTNodeValue::Matrix(*rows)) ==> r != Err::<RuntimeVal<T>, EvaluationError>(
                EvaluationError::InvalidArithmaticExpression,
            ),
            Self::binds_only(*old(self), *final(self), |k: Seq<char>| !untouched_by(ASTNodeValue::Matrix(*rows), k)),
            wf_value(ASTNodeValue::Matrix(*rows)) && numeric_cells(rows@) ==> literal_outcome(rows@, r),
            wf_value(ASTNodeValue::Matrix(*rows)) && nested_literal(rows@) ==> r == Err::<RuntimeVal<T>, EvaluationError>(
                EvaluationError::NestedMatrices,
            ),
        decreases rows, 0int,
    {
        let height = rows.len();
        if height == 0 {
            return Ok(RuntimeVal::Matrix(Matrix::new()));
        }
        let width = rows[0].len();
        let ghost nested = wf_value(ASTNodeValue::Matrix(*rows)) && nested_literal(rows@);
        let mut res_mat: Vec<Vec<T>> = Vec::new();
        let mut i: usize = 0;
        while i < height
            invariant
                i <= height,
                height == rows@.len(),
                width == rows@[0]@.len(),
                self.wf(),
                Self::extends(*old(self), *self),
                Self::binds_only(*old(self), *self, |k: Seq<char>| !untouched_by(ASTNodeValue::Matrix(*rows), k)),
                res_mat@.len() == i,
                forall|k: int| 0 <= k < i ==> #[trigger] res_mat@[k]@.len() == width,
                nested == (wf_value(ASTNodeValue::Matrix(*rows)) && nested_literal(rows@)),
                nested ==> forall|k: int, l: int| 0 <= k < i && 0 <= l < width ==> (#[trigger] rows@[k]@[l]).value is Number,
                numeric_cells(rows@) ==> forall|k: int, l: int|
                    0 <= k < i && 0 <= l < width ==> #[trigger] res_mat@[k]@[l] == literal_cell(rows@, k, l),
            decreases height - i,
        {
            if rows[i].len() != width {
                return Err(EvaluationError::InconsistantMatrixWidth(width, rows[i].len()));
            }
            let mut res_row: Vec<T> = Vec::new();
            let mut j: usize = 0;
            while j < width
                invariant
                    i < height,
                    j <= width,
                    height == rows@.len(),
                    width == rows@[i as int]@.len(),
                    self.wf(),
                    Self::extends(*old(self), *self),
                    Self::binds_only(*old(self), *self, |k: Seq<char>| !untouched_by(ASTNodeValue::Matrix(*rows), k)),
                    res_row@.len() == j,
                    nested == (wf_value(ASTNodeValue::Matrix(*rows)) && nested_literal(rows@)),
                    nested ==> forall|k: int, l: int| 0 <= k < i && 0 <= l < width ==> (#[trigger] rows@[k]@[l]).value is Number,
                    nested ==> forall|l: int| 0 <= l < j ==> (#[trigger] rows@[i as int]@[l]).value is Number,
                    numeric_cells(rows@) ==> forall|l: int| 0 <= l < j ==> #[trigger] res_row@[l] == literal_cell(rows@, i as int, l),
                decreases width - j,
            {
                let ghost before = *self;
                let evaluated = self.evaluate(&rows[i][j]);
                proof {
                    let cell = rows@[i as int]@[j as int];
                    assert forall|k: Seq<char>| !#[trigger] node_untouched_by(cell, k) implies !untouched_by(ASTNodeValue::Matrix(*rows), k) by {
                        if untouched_by(ASTNodeValue::Matrix(*rows), k) {
                            assert(!(cell.store_in_ans && k == ans_name()) && untouched_by(cell.value, k));
                        }
                    }
                    Self::lemma_binds_only_trans(
                        *old(self),
                        before,
                        *self,
                        |k: Seq<char>| !untouched_by(ASTNodeValue::Matrix(*rows), k),
                        |k: Seq<char>| !node_untouched_by(cell, k),
                    );
                }
                let value = evaluated?;
                match value {
                    RuntimeVal::Matrix(_) => {
                        return Err(EvaluationError::NestedMatrices);
                    },
                    RuntimeVal::Scalar(cell) => res_row.push(cell),
                    RuntimeVal::Variable(name) => match self.get_var(&name) {
                        Some(RuntimeVal::Scalar(cell)) => res_row.push(cell),
                        Some(RuntimeVal::Matrix(_)) => {
                            return Err(EvaluationError::NestedMatrices);
                        },
                        Some(RuntimeVal::Variable(_)) => {
                            return Err(EvaluationError::InvalidArithmaticExpression);
                        },
                        None => {
                            return Err(EvaluationError::NonexistantVar(name));
                        },
                    },
                }
                j = j + 1;
            }
            res_mat.push(res_row);
            i = i + 1;
        }
        if width == 1 && height == 1 {
            return Ok(RuntimeVal::Scalar(res_mat[0][0]));
        }
        let ghost cells = res_mat@;
        let built = Matrix::try_from_rows(res_mat);
        match built {
            Ok(m) => {
                proof {
                    if numeric_cells(rows@) {
                        assert forall|a: int, b: int|
                            0 <= a < rows@.len() && 0 <= b < rows@[0]@.len() implies #[trigger] m.cell(a, b)
                                == literal_cell(rows@, a, b) by {
                            assert(m.cell(a, b) == cells[a]@[b]);
                        }
                    }
                }
                Ok(RuntimeVal::Matrix(m))
            },
            Err(e) => Err(e),
        }
    }

    /// Runs a postfix sequence, stored back to front, on an operand stack.
    fn evaluate_postfix(&mut self, rpn: &Vec<ASTNodeValue<T>>) -> (r: Result<RuntimeVal<T>, EvaluationError>)
        requires
            old(self).wf(),
        ensures
            final(self).wf(),
            Self::extends(*old(self), *final(self)),
            r matches Ok(v) ==> valid_result(*final(self), v),
            wf_value(ASTNodeValue::ArithmaticExpr(*rpn)) ==> r != Err::<RuntimeVal<T>, EvaluationError>(
                EvaluationError::InvalidArithmaticExpression,
            ),
            Self::binds_only(*old(self), *final(self), |k: Seq<char>| !untouched_by(ASTNodeValue::ArithmaticExpr(*rpn), k)),
            wf_value(ASTNodeValue::ArithmaticExpr(*rpn)) && scalar_arithmetic(rpn@, *old(self)) ==> (r == Ok::<
                RuntimeVal<T>,
                EvaluationError,
            >(RuntimeVal::Scalar(postfix_value(rpn@, *old(self)))) && final(self).variables@ == old(self).variables@),
            literal_assignment(rpn@) ==> (r matches Ok(RuntimeVal::Variable(name)) && name@ == rpn@[2]->Variable_0@
                && bound_in(*old(self), *final(self), name@, Value::Scalar(rpn@[1]->Number_0))),
            number_assignment(rpn@) ==> r == Err::<RuntimeVal<T>, EvaluationError>(
                EvaluationError::AssignmentToNonVariable,
            ),
            wf_value(ASTNodeValue::ArithmaticExpr(*rpn)) && scalar_or_unbound(rpn@, *old(self)) ==> match postfix_lookup_run(
                rpn@,
                *old(self),
                Seq::empty(),
            ) {
                Err(name) => r == Err::<RuntimeVal<T>, EvaluationError>(EvaluationError::NonexistantVar(name)),
                Ok(_) => !assigns(rpn@) ==> r matches Ok(RuntimeVal::Scalar(_)),
            },
            binary_operation(rpn@, *old(self)) ==> binary_outcome(rpn@, *old(self), r),
        decreases rpn, 0int,
    {
        let ghost well = wf_value(ASTNodeValue::ArithmaticExpr(*rpn));
        let ghost numeric = well && scalar_arithmetic(rpn@, *old(self));
        let ghost lookup = well && scalar_or_unbound(rpn@, *old(self));
        let mut stack: Vec<RuntimeVal<T>> = Vec::new();
        let mut i = rpn.len();
        proof {
            assert(rpn@.subrange(0, i as int) =~= rpn@);
            assert(stack_slots(stack@) =~= Seq::<ASTNodeValue<T>>::empty());
            assert(stack_numbers(stack@, *old(self)) =~= Seq::<T>::empty());
        }
        while i > 0
            invariant
                i <= rpn@.len(),
                well == wf_value(ASTNodeValue::ArithmaticExpr(*rpn)),
                numeric == (well && scalar_arithmetic(rpn@, *old(self))),
                lookup == (well && scalar_or_unbound(rpn@, *old(self))),
                lookup ==> postfix_lookup_run(rpn@.subrange(0, i as int), *old(self), stack_slots(stack@))
                    == postfix_lookup_run(rpn@, *old(self), Seq::empty()),
                lookup && i > 0 ==> self.variables@ == old(self).variables@,
                binary_operation(rpn@, *old(self)) ==> {
                    &&& i == 3 ==> stack@.len() == 0 && self.variables@ == old(self).variables@
                    &&& i == 2 ==> stack@ == seq![pushed(rpn@[2])] && self.variables@ == old(self).variables@
                    &&& i == 1 ==> stack@ == seq![pushed(rpn@[2]), pushed(rpn@[1])] && self.variables@
                        == old(self).variables@
                    &&& i == 0 ==> stack@.len() == 1 && is_resolved(stack@[0]) && binary_outcome(
                        rpn@,
                        *old(self),
                        Ok(stack@[0]),
                    )
                },
                lookup && i > 0 ==> forall|k: int|
                    0 <= k < stack@.len() ==> match #[trigger] stack@[k] {
                        RuntimeVal::Scalar(_) => true,
                        RuntimeVal::Variable(name) => old(self).var(name@) is None || old(self).var(name@) matches Some(
                            Value::Scalar(_),
                        ),
                        _ => false,
                    },
                lookup && !assigns(rpn@) && i < rpn@.len() && rpn@[i as int] is Operator ==> stack@.len() > 0
                    && stack@.last() is Scalar,
                well ==> postfix_run(rpn@.subrange(0, i as int), stack@.len()) == Some(1nat),
                numeric ==> postfix_numbers(rpn@.subrange(0, i as int), *old(self), stack_numbers(stack@, *old(self)))
                    == postfix_numbers(rpn@, *old(self), Seq::<T>::empty()),
                stack_ok(stack@),
                forall|k: int|
                    0 <= k < stack@.len() ==> (#[trigger] stack@[k] matches RuntimeVal::Variable(name) ==> mentions(
                        rpn@,
                        name@,
                    )),
                self.wf(),
                Self::extends(*old(self), *self),
                Self::binds_only(*old(self), *self, |k: Seq<char>| !untouched_by(ASTNodeValue::ArithmaticExpr(*rpn), k)),
                literal_assignment(rpn@) && i == 3 ==> stack@.len() == 0 && self.variables@ == old(self).variables@,
                number_assignment(rpn@) && i == 3 ==> stack@.len() == 0,
                number_assignment(rpn@) && i == 2 ==> stack@ == seq![RuntimeVal::<T>::Scalar(rpn@[2]->Number_0)],
                number_assignment(rpn@) && i == 1 ==> stack@ == seq![
                    RuntimeVal::<T>::Scalar(rpn@[2]->Number_0),
                    RuntimeVal::Scalar(rpn@[1]->Number_0),
                ],
                number_assignment(rpn@) ==> i >= 1,
                literal_assignment(rpn@) && i == 2 ==> stack@ == seq![RuntimeVal::<T>::Variable(rpn@[2]->Variable_0)]
                    && self.variables@ == old(self).variables@,
                literal_assignment(rpn@) && i == 1 ==> stack@ == seq![
                    RuntimeVal::<T>::Variable(rpn@[2]->Variable_0),
                    RuntimeVal::Scalar(rpn@[1]->Number_0),
                ] && self.variables@ == old(self).variables@,
                literal_assignment(rpn@) && i == 0 ==> stack@ == seq![RuntimeVal::<T>::Variable(rpn@[2]->Variable_0)]
                    && bound_in(*old(self), *self, rpn@[2]->Variable_0@, Value::Scalar(rpn@[1]->Number_0)),
                numeric && i < rpn@.len() && rpn@[i as int] is Operator ==> stack@.len() > 0
                    && stack@.last() is Scalar,
                numeric ==> self.variables@ == old(self).variables@ && forall|k: int|
                    0 <= k < stack@.len() ==> match #[trigger] stack@[k] {
                        RuntimeVal::Scalar(_) => true,
                        RuntimeVal::Variable(name) => old(self).var(name@) matches Some(Value::Scalar(_)),
                        _ => false,
                    },
            decreases i,
        {
            let ghost sub = rpn@.subrange(0, i as int);
            let ghost h = stack@.len();
            proof {
                assert(sub.last() == rpn@[i - 1]);
                assert(sub.drop_last() =~= rpn@.subrange(0, i - 1));
            }
            i = i - 1;
            let ghost before = *self;
            let ghost sv = stack_numbers(stack@, *old(self));
            let ghost sl = stack_slots(stack@);
            match &rpn[i] {
                ASTNodeValue::Operator(operator) => {
                    let ghost stack_before = stack@;
                    if stack.len() < 2 {
                        return Err(EvaluationError::InvalidArithmaticExpression);
                    }
                    let right = self.resolve(stack.pop().unwrap())?;
                    let left = stack.pop().unwrap();
                    proof {
                        if literal_assignment(rpn@) {
                            assert(i == 0);
                            assert(stack_before[1] == RuntimeVal::<T>::Scalar(rpn@[1]->Number_0));
                            assert(right == RuntimeVal::<T>::Scalar(rpn@[1]->Number_0));
                            assert(left == RuntimeVal::<T>::Variable(rpn@[2]->Variable_0));
                            assert(stack@.len() == 0);
                        }
                    }
                    if let Operator::Assign = operator {
                        if let RuntimeVal::Variable(var_name) = left {
                            self.assign_var(var_name.clone(), right);
                            stack.push(RuntimeVal::Variable(var_name));
                            proof {
                                if literal_assignment(rpn@) {
                                    assert(stack@ =~= seq![RuntimeVal::<T>::Variable(rpn@[2]->Variable_0)]);
                                }
                                assert(stack_slots(stack@) =~= sl.drop_last());
                            }
                            proof {
                                assert(stack_ok(stack@));
                            }
                            continue;
                        }
                    }
                    let left = self.resolve(left)?;
                    let ghost lv = left;
                    let ghost rv = right;
                    let outcome = match operator {
                        Operator::Add => left.try_add(right),
                        Operator::Subtract => left.try_sub(right),
                        Operator::Multiply => left.try_mul(right),
                        Operator::Divide => left.try_div(right),
                        Operator::Assign => {
                            proof {
                                assert(rpn@[i as int] == ASTNodeValue::<T>::Operator(Operator::Assign));
                                assert(assigns(rpn@));
                                if lookup {
                                    let n = stack_before.len() as int;
                                    assert(sub.drop_last() =~= rpn@.subrange(0, i as int));
                                    assert(stack_before[n - 1] is Scalar || stack_before[n - 1] is Variable);
                                    assert(slot_number(sl[n - 1], *old(self)) is Ok);
                                    assert(sub.last() == ASTNodeValue::<T>::Operator(Operator::Assign));
                                    assert(sl.len() >= 2 && sl.last() == sl[n - 1]);
                                    assert(sub.drop_last().len() == 0);
                                    assert(postfix_lookup_run(sub.drop_last(), *old(self), sl.drop_last()) is Ok);
                                    assert(postfix_lookup_run(sub, *old(self), sl) is Ok);
                                }
                            }
                            Err(EvaluationError::AssignmentToNonVariable)
                        },
                    };
                    proof {
                        if binary_operation(rpn@, *old(self)) {
                            assert(i == 0);
                            assert(is_resolved(lv) && is_resolved(rv));
                            assert(Some(lv@) == operand_value(rpn@[2], *old(self)));
                            assert(Some(rv@) == operand_value(rpn@[1], *old(self)));
                            assert(arithmetic_outcome(*operator, lv, rv, outcome));
                        }
                    }
                    let value = outcome?;
                    stack.push(value);
                    proof {
                        if binary_operation(rpn@, *old(self)) {
                            assert(stack@ =~= seq![value]);
                            assert(arithmetic_outcome(*operator, lv, rv, Ok(value)));
                        }
                        if lookup {
                            let n = stack_before.len() as int;
                            assert(stack_slots(stack@) =~= sl.subrange(0, n - 2).push(
                                ASTNodeValue::Number(operator_value(*operator, sv[n - 2], sv[n - 1])),
                            ));
                        }
                        if numeric {
                            let n = stack_before.len() as int;
                            assert(stack_numbers(stack@, *old(self)) =~= sv.subrange(0, n - 2).push(
                                operator_value(*operator, sv[n - 2], sv[n - 1]),
                            ));
                        }
                    }
                },
                ASTNodeValue::Number(val) => {
                    stack.push(RuntimeVal::Scalar(*val));
                    proof {
                        assert(stack_numbers(stack@, *old(self)) =~= sv.push(element_number(rpn@[i as int], *old(self))));
                        assert(stack_slots(stack@) =~= sl.push(rpn@[i as int]));
                        if number_assignment(rpn@) {
                            if i == 2 {
                                assert(stack@ =~= seq![RuntimeVal::<T>::Scalar(rpn@[2]->Number_0)]);
                            } else {
                                assert(stack@ =~= seq![
                                    RuntimeVal::<T>::Scalar(rpn@[2]->Number_0),
                                    RuntimeVal::Scalar(rpn@[1]->Number_0),
                                ]);
                            }
                        }
                    }
                    proof {
                        if literal_assignment(rpn@) {
                            assert(stack@ =~= seq![
                                RuntimeVal::<T>::Variable(rpn@[2]->Variable_0),
                                RuntimeVal::Scalar(rpn@[1]->Number_0),
                            ]);
                        }
                    }
                },
                ASTNodeValue::Variable(name) => {
                    proof {
                        assert(rpn@[i as int] is Variable && rpn@[i as int]->Variable_0@ == name@);
                    }
                    stack.push(RuntimeVal::Variable(name.clone()));
                    proof {
                        assert(stack_numbers(stack@, *old(self)) =~= sv.push(element_number(rpn@[i as int], *old(self))));
                        assert(stack_slots(stack@) =~= sl.push(rpn@[i as int]));
                    }
                    proof {
                        if literal_assignment(rpn@) {
                            assert(stack@ =~= seq![RuntimeVal::<T>::Variable(rpn@[2]->Variable_0)]);
                        }
                    }
                },
                ASTNodeValue::Matrix(rows) => {
                    let evaluated = self.evaluate_matrix(rows);
                    proof {
                        assert forall|k: Seq<char>| !#[trigger] untouched_by(ASTNodeValue::Matrix(*rows), k) implies !untouched_by(
                            ASTNodeValue::ArithmaticExpr(*rpn),
                            k,
                        ) by {
                            assert(rpn@[i as int] == ASTNodeValue::Matrix(*rows));
                        }
                        Self::lemma_binds_only_trans(
                            *old(self),
                            before,
                            *self,
                            |k: Seq<char>| !untouched_by(ASTNodeValue::ArithmaticExpr(*rpn), k),
                            |k: Seq<char>| !untouched_by(ASTNodeValue::Matrix(*rows), k),
                        );
                    }
                    let value = evaluated?;
                    stack.push(value);
                },
                ASTNodeValue::ArithmaticExpr(_) => {
                    return Err(EvaluationError::InvalidArithmaticExpression);
                },
            }
        }
        proof {
            assert(rpn@.subrange(0, 0) =~= Seq::<ASTNodeValue<T>>::empty());
            if well {
                lemma_postfix_ends_with_operator(rpn@);
            }
        }
        if stack.len() != 1 {
            return Err(EvaluationError::InvalidArithmaticExpression);
        }
        let res = stack.pop().unwrap();
        match res {
            RuntimeVal::Variable(var_name) => {
                if self.get_var(&var_name).is_none() {
                    return Err(EvaluationError::NonexistantVar(var_name));
                }
                Ok(RuntimeVal::Variable(var_name))
            },
            other => Ok(other),
        }
    }
}

} // verus!

verus! {

/// An assignment statement leaves `ans` alone when it names no variable
/// `ans`: the parser does not mark a statement that holds `=` for storing
/// (`Parser::parse` gives `store_in_ans == stores_in_ans(value)`), and
/// `Engine::evaluate` changes only variables that the statement does not
/// leave untouched.
pub proof fn lemma_assignment_leaves_ans<T>(node: ASTNode<T>, k: int)
    requires
        node.value matches ASTNodeValue::ArithmaticExpr(post) && 0 <= k < post@.len() && post@[k]
            == ASTNodeValue::<T>::Operator(Operator::Assign),
        node.store_in_ans == stores_in_ans(node.value),
        untouched_by(node.value, ans_name()),
    ensures
        !node.store_in_ans,
        node_untouched_by(node, ans_name()),
{
}

} // verus!
