//! Resolving a flat run of operands and operators into a tree by precedence.

use crate::ast::{Expression, Operand};
use crate::model::{Expr, Operator, Term};
use vstd::prelude::*;

verus! {

/// The state of the resolver: the operations that wait for their right side,
/// bottom first, and the expression read last.
pub ghost struct Yard {
    pub pending: Seq<(Expr, Operator)>,
    pub last: Expr,
}

impl Yard {
    /// The state after the first operand.
    pub open spec fn new(first: Term) -> Yard {
        Yard { pending: Seq::empty(), last: Expr::Operand(first) }
    }

    /// The state with the topmost pending operation folded into `last`.
    pub open spec fn fold_top(self) -> Yard
        recommends
            self.pending.len() > 0,
    {
        Yard {
            pending: self.pending.drop_last(),
            last: Expr::Operation(
                self.pending.last().1,
                Box::new(self.pending.last().0),
                Box::new(self.last),
            ),
        }
    }

    /// Folds pending operations, topmost first, while their operator binds at
    /// least as tightly as `op`.
    pub open spec fn reduce(self, op: Operator) -> Yard
        decreases self.pending.len(),
    {
        if self.pending.len() > 0 && self.pending.last().1.precedence() >= op.precedence() {
            self.fold_top().reduce(op)
        } else {
            self
        }
    }

    /// The state after an operator and the operand that follows it.
    pub open spec fn push(self, op: Operator, operand: Term) -> Yard {
        let reduced = self.reduce(op);
        Yard { pending: reduced.pending.push((reduced.last, op)), last: Expr::Operand(operand) }
    }

    /// The tree once every pending operation is folded.
    pub open spec fn finish(self) -> Expr
        decreases self.pending.len(),
    {
        if self.pending.len() > 0 {
            self.fold_top().finish()
        } else {
            self.last
        }
    }

    /// Pending operators grow strictly in precedence from bottom to top.
    pub open spec fn ordered(self) -> bool {
        forall|i: int, j: int|
            0 <= i < j < self.pending.len() ==> self.pending[i].1.precedence()
                < self.pending[j].1.precedence()
    }
}

/// The resolver of binary expressions.
pub struct ShuntingYard {
    pending: Vec<(Expression, Operator)>,
    last: Expression,
}

impl View for ShuntingYard {
    type V = Yard;

    closed spec fn view(&self) -> Yard {
        Yard {
            pending: Seq::new(
                self.pending@.len(),
                |i: int| (self.pending@[i].0@, self.pending@[i].1),
            ),
            last: self.last@,
        }
    }
}

impl ShuntingYard {
    /// The resolver after the first operand.
    pub fn new(first: Operand) -> (r: ShuntingYard)
        ensures
            r@ == Yard::new(first@),
    {
        let r = ShuntingYard { pending: Vec::new(), last: Expression::Operand(first) };
        assert(r@.pending =~= Seq::empty());
        r
    }

    fn fold_top(&mut self)
        requires
            old(self)@.pending.len() > 0,
        ensures
            final(self)@ == old(self)@.fold_top(),
    {
        let (left, op) = self.pending.pop().unwrap();
        let mut right = Expression::Operand(Operand::I64(0));
        core::mem::swap(&mut self.last, &mut right);
        self.last = Expression::Operation(op, Box::new(left), Box::new(right));
        assert(final(self)@.pending =~= old(self)@.fold_top().pending);
    }

    /// Takes an operator and the operand behind it: the operations that wait
    /// and bind at least as tightly as the operator are folded first.
    pub fn push(&mut self, operator: Operator, operand: Operand)
        ensures
            final(self)@ == old(self)@.push(operator, operand@),
    {
        while self.pending.len() > 0 && self.pending[self.pending.len() - 1].1.rank()
            >= operator.rank()
            invariant
                self@.reduce(operator) == old(self)@.reduce(operator),
            decreases self.pending.len(),
        {
            self.fold_top();
        }
        let mut last = Expression::Operand(operand);
        core::mem::swap(&mut self.last, &mut last);
        self.pending.push((last, operator));
        assert(final(self)@.pending =~= old(self)@.push(operator, operand@).pending);
    }

    /// The tree of all that was taken.
    pub fn into_expression(self) -> (r: Expression)
        ensures
            r@ == self@.finish(),
    {
        let mut yard = self;
        while yard.pending.len() > 0
            invariant
                yard@.finish() == self@.finish(),
            decreases yard.pending.len(),
        {
            yard.fold_top();
        }
        yard.last
    }
}

} // verus!
