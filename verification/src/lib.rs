//! A bi-parental heap: an array-backed priority structure laid out in
//! triangular rows, in which most elements have two parents and two children.
//! Besides insertion and removal of the minimum it supports search by value in
//! a number of comparisons proportional to the square root of its length.
pub mod beap;
