//! The natural order of paths, in which `10` comes after `9`, not after `1`.

use crate::order::{compare_path_keys, path_order};
use crate::paths::{path_keys, PathParts};
use std::cmp::Ordering;
use vstd::prelude::*;

verus! {

/// The `Ordering` that an order given as -1, 0, 1 stands for.
pub open spec fn ordering_of(x: int) -> Ordering {
    if x < 0 {
        Ordering::Less
    } else if x == 0 {
        Ordering::Equal
    } else {
        Ordering::Greater
    }
}

/// Compares two paths component by component, so that nested folders stay
/// grouped; on flat paths this is the order of the names.
pub fn compare_paths(left: &PathParts, right: &PathParts) -> (r: Ordering)
    ensures
        r == ordering_of(path_order(left@, right@)),
{
    let a = path_keys(left);
    let b = path_keys(right);
    let c = compare_path_keys(&a, &b);
    if c < 0 {
        Ordering::Less
    } else if c == 0 {
        Ordering::Equal
    } else {
        Ordering::Greater
    }
}

} // verus!
