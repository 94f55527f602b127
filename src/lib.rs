use vstd::prelude::*;

pub mod tree;
pub mod vfs;
pub mod reconcile;
pub mod fuse;

verus! {

} // verus!
