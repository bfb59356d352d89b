//! What a rendered node reports about its dynamic content.

use vstd::prelude::*;

verus! {

/// Dynamic content within a component: which dependency ids it follows, and under which
/// number the component renders it again.
pub struct DynamicContent {
    pub dependencies: Vec<usize>,
    pub update_type: usize,
}

} // verus!
