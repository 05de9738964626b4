//! Five classic comparison sorts over a vector of integers, each verified to
//! produce a sorted rearrangement of its input: selection sort, bubble sort
//! with early exit, insertion sort, quick sort (Lomuto partition), and an
//! iterative bottom-up merge sort.

pub mod algorithms;
pub mod specs;
