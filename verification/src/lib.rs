#![allow(non_camel_case_types)]
#![allow(non_upper_case_globals)]
#![allow(non_snake_case)]

pub mod types;
pub mod keys;
pub mod tree;
pub mod number;
pub mod string;
pub mod parse;
pub mod print;
pub mod minify;
pub mod compare;
pub mod pointer;
pub mod sort;
pub mod patch;
pub mod merge_patch;
pub mod roundtrip;
