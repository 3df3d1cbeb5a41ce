use vstd::prelude::*;

verus! {

/// A separator: a key value together with references (arena indices) to the
/// two subtrees it divides. Every value reachable through `left` is strictly
/// less than `value`; every value reachable through `right` is strictly
/// greater.
#[derive(Clone, Copy, Debug)]
pub struct Key {
    pub value: u64,
    pub left: Option<usize>,
    pub right: Option<usize>,
}

impl Key {
    pub fn new(value: u64, left: Option<usize>, right: Option<usize>) -> (k: Key)
        ensures
            k.value == value,
            k.left == left,
            k.right == right,
    {
        Key { value, left, right }
    }
}

} // verus!
