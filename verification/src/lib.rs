pub mod entries;
pub mod hash;
pub mod key;
pub mod tree;
pub mod object;
pub mod laws;
