use vstd::prelude::*;

verus! {

/// What the pointer is over in the selector.
#[derive(Debug, Clone, Copy, PartialEq, Eq)]
pub enum Hover {
    Nothing,
    Tab { tab_idx: usize },
    Item { row_idx: usize, item_idx: usize },
}

impl Hover {
    /// Whether the pointer is over the tab `idx`.
    pub fn is_tab(&self, idx: usize) -> (yes: bool)
        ensures
            yes == (*self == Hover::Tab { tab_idx: idx }),
    {
        match self {
            Hover::Tab { tab_idx } => *tab_idx == idx,
            _ => false,
        }
    }
}

} // verus!
