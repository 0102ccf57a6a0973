//! Rule-name conventions that a fact grammar follows.

use vstd::prelude::*;

verus! {

/// Name of the grammar rule that matches a query variable.
pub const VAR_RULE_NAME: &'static str = "var";

/// Rules whose names begin with this prefix may host a variable in a query.
pub const VAR_RANGE_PREFIX: &'static str = "v_";

/// Rules whose names begin with this prefix hold at most one value per parent.
pub const UNIQUE_PREFIX: &'static str = "u_";

} // verus!
