use vstd::prelude::*;

use crate::item::Id;

verus! {

/// The identifier names no item of this `Context`.
#[derive(Debug, Clone, Copy, PartialEq, Eq, Structural)]
pub struct ItemNotFound(pub Id);

} // verus!
