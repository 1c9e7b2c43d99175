//! Text preparation and adaptive layout for titled announcement posters.
//!
//! The crate decomposes a raw title into category tags and a topic,
//! wraps the topic into display lines at word boundaries, and computes
//! draw positions and font sizes so the lines fit a canvas region.

use vstd::prelude::*;

pub mod text;
pub mod split;
pub mod wrap;
pub mod layout;

pub use split::Title;
pub use split::TitleResult;

verus! {

} // verus!
