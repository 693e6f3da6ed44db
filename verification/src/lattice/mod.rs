pub mod collapse;
pub mod float_key;
pub mod merge;
pub mod proofs;
pub mod shape;
