//! # jabba_lib
//!
//! `jabba_lib` is a general-purpose utility library. The API was mainly inspired by
//! the Python programming language.
//!
//! Every function carries a contract that states what it returns, and the
//! contracts are proved by Verus.

pub mod jmath;
pub mod jos;
pub mod jpermutation;
pub mod jprocess;
pub mod jpy;
pub mod jrandom;
pub mod jspell;
pub mod jstring;
pub mod jvec;
