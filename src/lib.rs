use vstd::prelude::*;

pub mod context;
pub mod error;
pub mod geometry;
pub mod item;
pub mod numbers;
pub mod tree;

pub use context::Context;
pub use error::ItemNotFound;
pub use geometry::{enlarge_gaps_inbetween, ExtentAndMargins, LineParams};
pub use item::{Alignment, AsChildFlags, AsParentFlags, ExtraFlags, Id, Item, ItemFlags, Layout, Margin};
pub use numbers::Fin;
pub use tree::{ItemWithCalcSize, Links};

verus! {

/// A coordinate or a length.
pub type Scalar = i16;

} // verus!
