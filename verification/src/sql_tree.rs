//! Derived tables and the values read from them.

use vstd::prelude::*;

verus! {

/// Why a derived table exists.
#[derive(Clone, Copy, PartialEq, Eq, Structural, Debug)]
pub enum CtePurpose {
    /// It folds the many rows that a row is related to into one value.
    ValueExtraction,
    /// It tells whether a row is related to any row at all.
    RowSelection,
}

/// A named derived table with one row for each row that it is joined back to.
/// `S` is the statement that computes it; joining never looks inside.
pub struct Cte<S> {
    pub select: S,
    pub alias: String,
    pub purpose: CtePurpose,
    /// The column of the joining row by which the derived table is found.
    pub join_column_name: String,
}

/// What a derived table is, as plain values.
pub struct CteView<S> {
    pub select: S,
    pub alias: Seq<char>,
    pub purpose: CtePurpose,
    pub join_column_name: Seq<char>,
}

impl<S> View for Cte<S> {
    type V = CteView<S>;

    open spec fn view(&self) -> CteView<S> {
        CteView {
            select: self.select,
            alias: self.alias@,
            purpose: self.purpose,
            join_column_name: self.join_column_name@,
        }
    }
}

/// The plain values of `cte`, if there is one.
pub open spec fn cte_view<S>(cte: Option<Cte<S>>) -> Option<CteView<S>> {
    match cte {
        Some(cte) => Some(cte@),
        None => None,
    }
}

/// What compiling a path to many rows gives: the statement, the name of the
/// column that holds the value, and the operations of kind `C` that the
/// statement could not take in.
pub struct ValueViaCte<S, C> {
    pub select: S,
    pub value_alias: String,
    pub compositions: Vec<C>,
}

/// A column of a joined table, by the table's alias.
pub struct ColumnReference {
    pub table_alias: String,
    pub column_name: String,
}

/// A column with the operations of kind `C` that are still to be applied to it.
pub struct ValueExpression<C> {
    pub base: ColumnReference,
    pub compositions: Vec<C>,
}

} // verus!
