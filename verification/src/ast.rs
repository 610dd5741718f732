//! Expression trees, and how they are written out.

use crate::decimal::{decimal_text, push_decimal};
use vstd::prelude::*;
use vstd::string::*;

verus! {

/// A prefix operator.
#[derive(Debug, PartialEq, Eq, Clone, Copy, Structural)]
pub enum UnaryOperator {
    Plus,
    Minus,
}

/// An infix operator.
#[derive(Debug, PartialEq, Eq, Clone, Copy, Structural)]
pub enum BinaryOperator {
    Plus,
    Minus,
    Multiply,
    Divide,
    Power,
}

/// An expression tree. Every node owns its children.
#[derive(Debug, PartialEq)]
#[allow(inconsistent_fields)]
pub enum Expression {
    Integer(i64),
    UnaryOp { op: UnaryOperator, expr: Box<Expression> },
    BinaryOp { left: Box<Expression>, op: BinaryOperator, right: Box<Expression> },
}

/// A statement. An expression on its own is the only kind there is.
#[derive(Debug, PartialEq)]
pub enum Statement {
    ExpressionStatement(Expression),
}

/// The statements of a source text, in the order in which they were written.
#[derive(Debug, PartialEq)]
pub struct Program {
    pub statements: Vec<Statement>,
}

impl Clone for Expression {
    fn clone(&self) -> (copy: Self)
        ensures
            copy == *self,
        decreases *self,
    {
        match self {
            Expression::Integer(value) => Expression::Integer(*value),
            Expression::UnaryOp { op, expr } => Expression::UnaryOp {
                op: *op,
                expr: Box::new((**expr).clone()),
            },
            Expression::BinaryOp { left, op, right } => Expression::BinaryOp {
                left: Box::new((**left).clone()),
                op: *op,
                right: Box::new((**right).clone()),
            },
        }
    }
}

impl Clone for Statement {
    fn clone(&self) -> (copy: Self)
        ensures
            copy == *self,
    {
        match self {
            Statement::ExpressionStatement(expression) => Statement::ExpressionStatement(
                expression.clone(),
            ),
        }
    }
}

impl Clone for Program {
    fn clone(&self) -> (copy: Self)
        ensures
            copy.statements@ == self.statements@,
    {
        let mut statements: Vec<Statement> = Vec::new();
        let mut i: usize = 0;
        while i < self.statements.len()
            invariant
                i <= self.statements.len(),
                statements@ == self.statements@.take(i as int),
            decreases self.statements.len() - i,
        {
            statements.push(self.statements[i].clone());
            i = i + 1;
        }
        Program { statements }
    }
}

impl UnaryOperator {
    /// The operator's sign.
    pub open spec fn text(self) -> Seq<char> {
        match self {
            UnaryOperator::Plus => "+"@,
            UnaryOperator::Minus => "-"@,
        }
    }

    /// The operator's sign.
    pub fn symbol(&self) -> (s: &'static str)
        ensures
            s@ == self.text(),
    {
        match self {
            UnaryOperator::Plus => "+",
            UnaryOperator::Minus => "-",
        }
    }

    /// The operator written out.
    pub fn to_string(&self) -> (s: String)
        ensures
            s@ == self.text(),
    {
        String::from_str(self.symbol())
    }
}

impl BinaryOperator {
    /// The operator's sign.
    pub open spec fn text(self) -> Seq<char> {
        match self {
            BinaryOperator::Plus => "+"@,
            BinaryOperator::Minus => "-"@,
            BinaryOperator::Multiply => "*"@,
            BinaryOperator::Divide => "/"@,
            BinaryOperator::Power => "^"@,
        }
    }

    /// The operator's sign.
    pub fn symbol(&self) -> (s: &'static str)
        ensures
            s@ == self.text(),
    {
        match self {
            BinaryOperator::Plus => "+",
            BinaryOperator::Minus => "-",
            BinaryOperator::Multiply => "*",
            BinaryOperator::Divide => "/",
            BinaryOperator::Power => "^",
        }
    }

    /// The operator written out.
    pub fn to_string(&self) -> (s: String)
        ensures
            s@ == self.text(),
    {
        String::from_str(self.symbol())
    }
}

impl Expression {
    /// The expression written out with every operator and its operands between
    /// parentheses, so that nothing is left to precedence.
    pub open spec fn text(self) -> Seq<char>
        decreases self,
    {
        match self {
            Expression::Integer(value) => decimal_text(value as int),
            Expression::UnaryOp { op, expr } => "("@ + op.text() + expr.text() + ")"@,
            Expression::BinaryOp { left, op, right } => "("@ + left.text() + " "@ + op.text()
                + " "@ + right.text() + ")"@,
        }
    }

    /// Appends the expression, written out, to `out`.
    pub fn push_text(&self, out: &mut String)
        ensures
            final(out)@ == old(out)@ + self.text(),
        decreases *self,
    {
        match self {
            Expression::Integer(value) => push_decimal(out, *value),
            Expression::UnaryOp { op, expr } => {
                out.append("(");
                out.append(op.symbol());
                expr.push_text(out);
                out.append(")");
            },
            Expression::BinaryOp { left, op, right } => {
                out.append("(");
                left.push_text(out);
                out.append(" ");
                out.append(op.symbol());
                out.append(" ");
                right.push_text(out);
                out.append(")");
            },
        }
    }

    /// The expression written out. The recursion is as deep as the expression is
    /// nested.
    pub fn to_string(&self) -> (s: String)
        ensures
            s@ == self.text(),
    {
        let mut s = String::new();
        self.push_text(&mut s);
        s
    }
}

impl Statement {
    /// The statement written out.
    pub open spec fn text(self) -> Seq<char> {
        match self {
            Statement::ExpressionStatement(expression) => expression.text(),
        }
    }

    /// The statement written out.
    pub fn to_string(&self) -> (s: String)
        ensures
            s@ == self.text(),
    {
        match self {
            Statement::ExpressionStatement(expression) => expression.to_string(),
        }
    }
}

/// Statements written out one to a line: a line feed stands between one statement and
/// the next.
pub open spec fn lines(statements: Seq<Statement>) -> Seq<char>
    decreases statements.len(),
{
    if statements.len() == 0 {
        Seq::empty()
    } else if statements.len() == 1 {
        statements[0].text()
    } else {
        lines(statements.drop_last()) + "\n"@ + statements.last().text()
    }
}

impl Program {
    /// The program written out, one statement to a line.
    pub open spec fn text(self) -> Seq<char> {
        lines(self.statements@)
    }

    /// The program written out, one statement to a line.
    pub fn to_string(&self) -> (s: String)
        ensures
            s@ == self.text(),
    {
        let mut s = String::new();
        let mut i: usize = 0;
        while i < self.statements.len()
            invariant
                i <= self.statements.len(),
                s@ == lines(self.statements@.take(i as int)),
            decreases self.statements.len() - i,
        {
            if i > 0 {
                s.append("\n");
            }
            match &self.statements[i] {
                Statement::ExpressionStatement(expression) => expression.push_text(&mut s),
            }
            proof {
                let longer = self.statements@.take(i + 1);
                assert(longer.drop_last() =~= self.statements@.take(i as int));
            }
            i = i + 1;
        }
        assert(self.statements@.take(i as int) =~= self.statements@);
        s
    }
}

} // verus!
