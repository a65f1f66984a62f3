//! `grop` searches files for a literal pattern and shows each matching line
//! with the occurrences of the pattern emphasized.
//!
//! The library decides and formats; it reads no file and writes nothing.
//! [`matcher`] finds the occurrences in a line, [`traverse`] walks a tree of
//! directories one visit at a time on what its caller finds at each path,
//! [`report`] and [`paint`] turn the visits into lines of output, and [`cli`]
//! sorts out the arguments of an invocation.
//!
//! The functions are verified against their contracts. Taken on trust are
//! the calls into `colored` in [`paint`], the lowercase mapping of the
//! standard library in [`casefold`] and `String::push` in [`text`].
//! [`depth_first`] proves that the walk visits what a search by recursion
//! would visit, and [`strip`] that a painted line gives the line back when
//! its emphasis is stripped.

pub mod casefold;
pub mod cli;
pub mod depth_first;
pub mod lines;
pub mod matcher;
pub mod order;
pub mod paint;
pub mod report;
pub mod request;
pub mod search;
pub mod strip;
pub mod text;
pub mod traverse;
