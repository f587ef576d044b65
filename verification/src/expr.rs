//! The tree that parsing gives.

use vstd::prelude::*;

verus! {

/// A sum: a number, or the sum of two sums.
#[derive(Debug, PartialEq, Eq)]
pub enum Expr {
    /// An integer.
    Number(i32),
    /// The sum of the left and the right operand.
    Add(Box<Expr>, Box<Expr>),
}

/// The sum of `values` grouped to the left: of one value the number itself,
/// of more the sum of all but the last, plus the last.
pub open spec fn sum_of(values: Seq<i32>) -> Expr
    recommends
        values.len() > 0,
    decreases values.len(),
{
    if values.len() <= 1 {
        Expr::Number(values[0])
    } else {
        Expr::Add(Box::new(sum_of(values.drop_last())), Box::new(Expr::Number(values.last())))
    }
}

} // verus!
