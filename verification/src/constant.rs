//! Number tokens.
use vstd::prelude::*;

use crate::decimal::Decimal;

verus! {

/// A number token: an exact decimal value.
pub struct Constant {
    pub value: Decimal,
}

impl Constant {
    pub open spec fn wf(&self) -> bool {
        self.value.wf()
    }
}

} // verus!
