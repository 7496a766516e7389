use vstd::prelude::*;

pub mod atlas;
pub mod bitmask;
pub mod block_ao;
pub mod chat;
pub mod dirty;
pub mod friends;
pub mod greedy;
pub mod interaction;
pub mod keys;
pub mod sounds;
pub mod text;
pub mod textures;

verus! {
} // verus!
