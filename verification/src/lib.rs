pub mod bitvec;
pub mod hamming;
pub mod multiple;
