//! Extended Hamming (8,4) code: four data bits to an eight-bit code word
//! that corrects any single error and detects double errors.
#[allow(non_snake_case)]
pub mod Hamming;
