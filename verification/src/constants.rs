//! Fixed pieces of text.

use vstd::prelude::*;

verus! {

/// What one level of indentation is written with.
pub const INDENT_SPACER: &'static str = "    ";

/// What the name of every derived table starts with.
pub const CTE_ALIAS_PREFIX: &'static str = "cte";

/// The characters of `INDENT_SPACER`.
pub open spec fn indent_spacer() -> Seq<char> {
    seq![' ', ' ', ' ', ' ']
}

/// The characters of `CTE_ALIAS_PREFIX`.
pub open spec fn cte_alias_prefix() -> Seq<char> {
    seq!['c', 't', 'e']
}

} // verus!
